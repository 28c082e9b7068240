//! Reading pprof profiles from protobuf bytes.
use vstd::prelude::*;
use crate::codec::{
    as_uints, decoded, location_step, profile_entry_step, profile_step, read_function, read_label,
    read_line, read_location, read_mapping, read_profile, read_sample, read_value_type, sample_step,
    signed,
};
use crate::proto::{
    empty_location, empty_profile, empty_sample, location_views, sample_views, texts, PprofFunction,
    Label, Line, Location, Mapping, Profile, Sample, ValueType,
};
use crate::wire::{take_field, take_varints, RawField};

verus! {

/// Appends the integers of a packed or a single field. `false` where it holds none.
fn append_uints(out: &mut Vec<u64>, f: &RawField) -> (ok: bool)
    ensures
        match as_uints(f@) {
            Some(vs) => ok && final(out)@ == old(out)@ + vs,
            None => !ok && final(out)@ == old(out)@,
        },
{
    match f {
        RawField::Varint(v) => {
            out.push(*v);
            assert(out@ =~= old(out)@ + seq![*v]);
            true
        },
        RawField::Bytes(b) => {
            match take_varints(b) {
                Some(vs) => {
                    let mut vs = vs;
                    out.append(&mut vs);
                    true
                },
                None => false,
            }
        },
        RawField::Other => false,
    }
}

/// Appends the signed integers of a packed or a single field.
fn append_ints(out: &mut Vec<i64>, f: &RawField) -> (ok: bool)
    ensures
        match as_uints(f@) {
            Some(vs) => ok && final(out)@ == old(out)@ + signed(vs),
            None => !ok && final(out)@ == old(out)@,
        },
{
    let mut vs: Vec<u64> = Vec::new();
    if !append_uints(&mut vs, f) {
        return false;
    }
    let ghost all = as_uints(f@).unwrap();
    assert(vs@ =~= all);
    assert(out@ =~= old(out)@ + signed(all).take(0));
    for i in 0..vs.len()
        invariant
            vs@ == all,
            out@ == old(out)@ + signed(all).take(i as int),
    {
        out.push(vs[i] as i64);
        assert(out@ =~= old(out)@ + signed(all).take(i + 1));
    }
    assert(signed(all).take(all.len() as int) =~= signed(all));
    true
}

/// Takes the fields of `bytes` into `start`.
fn decode_value_type(start: ValueType, bytes: &[u8]) -> (r: Option<ValueType>)
    ensures
        r == read_value_type(start, bytes@),
{
    let mut m = start;
    let mut rest: &[u8] = bytes;
    while rest.len() > 0
        invariant
            read_value_type(start, bytes@) == read_value_type(m, rest@),
        decreases rest@.len(),
    {
        let (tag, f, after) = match take_field(rest, 1) {
            Some(x) => x,
            None => {
                return None;
            },
        };
        if 1 <= tag && tag <= 2 {
            let v: u64 = match f {
                RawField::Varint(v) => v,
                _ => {
                    return None;
                },
            };
            match tag {
                1 => {
                    m.ty = v as i64;
                },
                _ => {
                    m.unit = v as i64;
                },
            }
        }
        rest = after;
    }
    Some(m)
}

/// Takes the fields of `bytes` into `start`.
fn decode_label(start: Label, bytes: &[u8]) -> (r: Option<Label>)
    ensures
        r == read_label(start, bytes@),
{
    let mut m = start;
    let mut rest: &[u8] = bytes;
    while rest.len() > 0
        invariant
            read_label(start, bytes@) == read_label(m, rest@),
        decreases rest@.len(),
    {
        let (tag, f, after) = match take_field(rest, 2) {
            Some(x) => x,
            None => {
                return None;
            },
        };
        if 1 <= tag && tag <= 4 {
            let v: u64 = match f {
                RawField::Varint(v) => v,
                _ => {
                    return None;
                },
            };
            match tag {
                1 => {
                    m.key = v as i64;
                },
                2 => {
                    m.text = v as i64;
                },
                3 => {
                    m.num = v as i64;
                },
                _ => {
                    m.num_unit = v as i64;
                },
            }
        }
        rest = after;
    }
    Some(m)
}

/// Takes the fields of `bytes` into `start`.
fn decode_mapping(start: Mapping, bytes: &[u8]) -> (r: Option<Mapping>)
    ensures
        r == read_mapping(start, bytes@),
{
    let mut m = start;
    let mut rest: &[u8] = bytes;
    while rest.len() > 0
        invariant
            read_mapping(start, bytes@) == read_mapping(m, rest@),
        decreases rest@.len(),
    {
        let (tag, f, after) = match take_field(rest, 1) {
            Some(x) => x,
            None => {
                return None;
            },
        };
        if 1 <= tag && tag <= 10 {
            let v: u64 = match f {
                RawField::Varint(v) => v,
                _ => {
                    return None;
                },
            };
            match tag {
                1 => {
                    m.id = v;
                },
                2 => {
                    m.memory_start = v;
                },
                3 => {
                    m.memory_limit = v;
                },
                4 => {
                    m.file_offset = v;
                },
                5 => {
                    m.filename = v as i64;
                },
                6 => {
                    m.build_id = v as i64;
                },
                7 => {
                    m.has_functions = v != 0;
                },
                8 => {
                    m.has_filenames = v != 0;
                },
                9 => {
                    m.has_line_numbers = v != 0;
                },
                _ => {
                    m.has_inline_frames = v != 0;
                },
            }
        }
        rest = after;
    }
    Some(m)
}

/// Takes the fields of `bytes` into `start`.
fn decode_line(start: Line, bytes: &[u8]) -> (r: Option<Line>)
    ensures
        r == read_line(start, bytes@),
{
    let mut m = start;
    let mut rest: &[u8] = bytes;
    while rest.len() > 0
        invariant
            read_line(start, bytes@) == read_line(m, rest@),
        decreases rest@.len(),
    {
        let (tag, f, after) = match take_field(rest, 2) {
            Some(x) => x,
            None => {
                return None;
            },
        };
        if 1 <= tag && tag <= 3 {
            let v: u64 = match f {
                RawField::Varint(v) => v,
                _ => {
                    return None;
                },
            };
            match tag {
                1 => {
                    m.function_id = v;
                },
                2 => {
                    m.line = v as i64;
                },
                _ => {
                    m.column = v as i64;
                },
            }
        }
        rest = after;
    }
    Some(m)
}

/// Takes the fields of `bytes` into `start`.
fn decode_function(start: PprofFunction, bytes: &[u8]) -> (r: Option<PprofFunction>)
    ensures
        r == read_function(start, bytes@),
{
    let mut m = start;
    let mut rest: &[u8] = bytes;
    while rest.len() > 0
        invariant
            read_function(start, bytes@) == read_function(m, rest@),
        decreases rest@.len(),
    {
        let (tag, f, after) = match take_field(rest, 1) {
            Some(x) => x,
            None => {
                return None;
            },
        };
        if 1 <= tag && tag <= 5 {
            let v: u64 = match f {
                RawField::Varint(v) => v,
                _ => {
                    return None;
                },
            };
            match tag {
                1 => {
                    m.id = v;
                },
                2 => {
                    m.name = v as i64;
                },
                3 => {
                    m.system_name = v as i64;
                },
                4 => {
                    m.filename = v as i64;
                },
                _ => {
                    m.start_line = v as i64;
                },
            }
        }
        rest = after;
    }
    Some(m)
}

fn decode_sample(bytes: &[u8]) -> (r: Option<Sample>)
    ensures
        match r {
            Some(s) => read_sample(empty_sample(), bytes@) == Some(s@),
            None => read_sample(empty_sample(), bytes@) is None,
        },
{
    let mut m = Sample { location_id: Vec::new(), value: Vec::new(), label: Vec::new() };
    let mut rest: &[u8] = bytes;
    assert(m@ =~= empty_sample());
    while rest.len() > 0
        invariant
            read_sample(empty_sample(), bytes@) == read_sample(m@, rest@),
        decreases rest@.len(),
    {
        let (tag, f, after) = match take_field(rest, 1) {
            Some(x) => x,
            None => {
                return None;
            },
        };
        let ghost before = m@;
        if tag == 1 {
            if !append_uints(&mut m.location_id, &f) {
                return None;
            }
        } else if tag == 2 {
            if !append_ints(&mut m.value, &f) {
                return None;
            }
        } else if tag == 3 {
            let one = match f {
                RawField::Bytes(b) => decode_label(Label { key: 0, text: 0, num: 0, num_unit: 0 }, b),
                _ => None,
            };
            match one {
                Some(l) => {
                    m.label.push(l);
                },
                None => {
                    return None;
                },
            }
        }
        proof {
            let next = sample_step(before, tag as nat, f@);
            assert(next == Some(m@));
        }
        rest = after;
    }
    Some(m)
}

fn decode_location(bytes: &[u8]) -> (r: Option<Location>)
    ensures
        match r {
            Some(l) => read_location(empty_location(), bytes@) == Some(l@),
            None => read_location(empty_location(), bytes@) is None,
        },
{
    let mut m = Location { id: 0, mapping_id: 0, address: 0, line: Vec::new(), is_folded: false };
    let mut rest: &[u8] = bytes;
    assert(m@ =~= empty_location());
    while rest.len() > 0
        invariant
            read_location(empty_location(), bytes@) == read_location(m@, rest@),
        decreases rest@.len(),
    {
        let (tag, f, after) = match take_field(rest, 1) {
            Some(x) => x,
            None => {
                return None;
            },
        };
        let ghost before = m@;
        if tag == 4 {
            let one = match f {
                RawField::Bytes(b) => decode_line(Line { function_id: 0, line: 0, column: 0 }, b),
                _ => None,
            };
            match one {
                Some(l) => {
                    m.line.push(l);
                },
                None => {
                    return None;
                },
            }
        } else if 1 <= tag && tag <= 5 {
            let v: u64 = match f {
                RawField::Varint(v) => v,
                _ => {
                    return None;
                },
            };
            match tag {
                1 => {
                    m.id = v;
                },
                2 => {
                    m.mapping_id = v;
                },
                3 => {
                    m.address = v;
                },
                _ => {
                    m.is_folded = v != 0;
                },
            }
        }
        proof {
            let next = location_step(before, tag as nat, f@);
            assert(next == Some(m@));
        }
        rest = after;
    }
    Some(m)
}

/// A profile in which every field is unset.
pub fn new_profile() -> (p: Profile)
    ensures
        p@ == empty_profile(),
{
    let p = Profile {
        sample_type: Vec::new(),
        sample: Vec::new(),
        mapping: Vec::new(),
        location: Vec::new(),
        function: Vec::new(),
        string_table: Vec::new(),
        drop_frames: 0,
        keep_frames: 0,
        time_nanos: 0,
        duration_nanos: 0,
        period_type: None,
        period: 0,
        comment: Vec::new(),
        default_sample_type: 0,
        doc_url: 0,
    };
    assert(p@ =~= empty_profile());
    p
}

/// Takes one entry of a list of messages or strings into `m`.
fn decode_entry(m: &mut Profile, tag: u32, b: &[u8]) -> (ok: bool)
    requires
        1 <= tag <= 6 || tag == 11,
    ensures
        match profile_entry_step(old(m)@, tag as nat, b@) {
            Some(next) => ok && final(m)@ == next,
            None => !ok,
        },
{
    match tag {
        1 => {
            match decode_value_type(ValueType { ty: 0, unit: 0 }, b) {
                Some(x) => {
                    m.sample_type.push(x);
                },
                None => {
                    return false;
                },
            }
        },
        2 => {
            match decode_sample(b) {
                Some(x) => {
                    m.sample.push(x);
                    assert(sample_views(m.sample@) =~= sample_views(old(m).sample@).push(x@));
                },
                None => {
                    return false;
                },
            }
        },
        3 => {
            let blank = Mapping {
                id: 0,
                memory_start: 0,
                memory_limit: 0,
                file_offset: 0,
                filename: 0,
                build_id: 0,
                has_functions: false,
                has_filenames: false,
                has_line_numbers: false,
                has_inline_frames: false,
            };
            match decode_mapping(blank, b) {
                Some(x) => {
                    m.mapping.push(x);
                },
                None => {
                    return false;
                },
            }
        },
        4 => {
            match decode_location(b) {
                Some(x) => {
                    m.location.push(x);
                    assert(location_views(m.location@) =~= location_views(old(m).location@).push(x@));
                },
                None => {
                    return false;
                },
            }
        },
        5 => {
            let blank = PprofFunction { id: 0, name: 0, system_name: 0, filename: 0, start_line: 0 };
            match decode_function(blank, b) {
                Some(x) => {
                    m.function.push(x);
                },
                None => {
                    return false;
                },
            }
        },
        6 => {
            let mut copy: Vec<u8> = Vec::new();
            copy.extend_from_slice(b);
            assert(copy@ =~= b@);
            match String::from_utf8(copy) {
                Ok(s) => {
                    m.string_table.push(s);
                    assert(texts(m.string_table@) =~= texts(old(m).string_table@).push(s@));
                },
                Err(_) => {
                    return false;
                },
            }
        },
        _ => {
            let start = match m.period_type {
                Some(t) => t,
                None => ValueType { ty: 0, unit: 0 },
            };
            match decode_value_type(start, b) {
                Some(x) => {
                    m.period_type = Some(x);
                },
                None => {
                    return false;
                },
            }
        },
    }
    true
}

/// The profile that protobuf bytes hold. `None` where they hold none.
pub fn decode_profile_bytes(bytes: &[u8]) -> (r: Option<Profile>)
    ensures
        match r {
            Some(p) => decoded(bytes@) == Some(p@),
            None => decoded(bytes@) is None,
        },
{
    let mut m = new_profile();
    let mut rest: &[u8] = bytes;
    while rest.len() > 0
        invariant
            decoded(bytes@) == read_profile(m@, rest@),
        decreases rest@.len(),
    {
        let (tag, f, after) = match take_field(rest, 0) {
            Some(x) => x,
            None => {
                return None;
            },
        };
        let ghost before = m@;
        if (1 <= tag && tag <= 6) || tag == 11 {
            let ok = match f {
                RawField::Bytes(b) => decode_entry(&mut m, tag, b),
                _ => false,
            };
            if !ok {
                return None;
            }
        } else if tag == 13 {
            if !append_ints(&mut m.comment, &f) {
                return None;
            }
        } else if 7 <= tag && tag <= 15 {
            let v: i64 = match f {
                RawField::Varint(v) => v as i64,
                _ => {
                    return None;
                },
            };
            match tag {
                7 => {
                    m.drop_frames = v;
                },
                8 => {
                    m.keep_frames = v;
                },
                9 => {
                    m.time_nanos = v;
                },
                10 => {
                    m.duration_nanos = v;
                },
                12 => {
                    m.period = v;
                },
                14 => {
                    m.default_sample_type = v;
                },
                _ => {
                    m.doc_url = v;
                },
            }
        }
        proof {
            let next = profile_step(before, tag as nat, f@);
            assert(next == Some(m@));
        }
        rest = after;
    }
    Some(m)
}

} // verus!

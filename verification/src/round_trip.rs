//! Decoding undoes encoding.
use vstd::prelude::*;
use vstd::utf8::{encode_utf8_decode_utf8, encode_utf8_valid_utf8};
use crate::codec::{
    bool_word, decoded, function_bytes, function_list, function_step, label_bytes, label_list,
    label_step, line_bytes, line_list, line_step, location_bytes, location_list, location_step,
    mapping_bytes, mapping_list, mapping_step, no_function, no_label, no_line, no_mapping,
    no_value_type, period_type_bytes, profile_bytes, profile_step, profile_tail_bytes,
    read_function, read_label, read_line, read_location, read_mapping, read_profile, read_sample,
    read_value_type, sample_bytes, sample_list, sample_step, signed, text_list, value_type_bytes,
    value_type_list, value_type_step, words,
};
use crate::proto::{
    empty_location, empty_profile, empty_sample, PprofFunction, Label, Line, LocationView, Mapping,
    ProfileView, SampleView, ValueType,
};
use crate::wire::{
    law_varints_round_trip, lemma_merge_field, lemma_merge_repeated, merged, packed_bytes,
    repeated_bytes, scalar_bytes, varints, writable, Field,
};

verus! {

/// The two's complement word of a signed integer determines it.
proof fn lemma_word(x: i64)
    ensures
        (x as u64) as i64 == x,
        x as u64 == 0 ==> x == 0,
{
    assert((x as u64) as i64 == x) by (bit_vector);
    assert(x as u64 == 0 ==> x == 0) by (bit_vector);
}

proof fn lemma_words(vs: Seq<i64>)
    ensures
        signed(words(vs)) == vs,
{
    assert forall|i: int| 0 <= i < vs.len() implies signed(words(vs))[i] == vs[i] by {
        lemma_word(vs[i]);
    }
    assert(signed(words(vs)) =~= vs);
}

proof fn lemma_merge_scalar<M>(
    m: M,
    next: M,
    tag: nat,
    v: u64,
    rest: Seq<u8>,
    depth: nat,
    step: spec_fn(M, nat, Field) -> Option<M>,
)
    requires
        0 < tag < 16,
        if v == 0 {
            next == m
        } else {
            step(m, tag, Field::Varint(v)) == Some(next)
        },
    ensures
        merged(m, scalar_bytes(tag, v) + rest, depth, step) == merged(next, rest, depth, step),
{
    if v == 0 {
        assert(scalar_bytes(tag, v) + rest =~= rest);
    } else {
        lemma_merge_field(m, tag, Field::Varint(v), rest, depth, step);
    }
}

proof fn lemma_merge_packed<M>(
    m: M,
    next: M,
    tag: nat,
    vs: Seq<u64>,
    rest: Seq<u8>,
    depth: nat,
    step: spec_fn(M, nat, Field) -> Option<M>,
)
    requires
        0 < tag < 16,
        packed_bytes(tag, vs).len() <= u64::MAX,
        if vs.len() == 0 {
            next == m
        } else {
            step(m, tag, Field::Bytes(varints(vs))) == Some(next)
        },
    ensures
        merged(m, packed_bytes(tag, vs) + rest, depth, step) == merged(next, rest, depth, step),
{
    if vs.len() == 0 {
        assert(packed_bytes(tag, vs) + rest =~= rest);
    } else {
        lemma_merge_field(m, tag, Field::Bytes(varints(vs)), rest, depth, step);
    }
}

proof fn lemma_entry_len(tag: nat, list: Seq<Seq<u8>>, i: int)
    requires
        0 <= i < list.len(),
    ensures
        list[i].len() <= repeated_bytes(tag, list).len(),
    decreases list.len(),
{
    if i < list.len() - 1 {
        lemma_entry_len(tag, list.drop_last(), i);
    }
}

proof fn lemma_value_type(v: ValueType)
    ensures
        read_value_type(no_value_type(), value_type_bytes(v)) == Some(v),
{
    let step = |m: ValueType, tag: nat, f: Field| value_type_step(m, tag, f);
    let m0 = no_value_type();
    let m1 = ValueType { ty: v.ty, ..m0 };
    let m2 = ValueType { unit: v.unit, ..m1 };
    let r2 = Seq::<u8>::empty();
    let r1 = scalar_bytes(2, v.unit as u64);
    assert(r1 =~= r1 + r2);
    lemma_word(v.ty);
    lemma_word(v.unit);
    lemma_merge_scalar(m0, m1, 1, v.ty as u64, r1, 1, step);
    lemma_merge_scalar(m1, m2, 2, v.unit as u64, r2, 1, step);
    assert(m2 == v);
}

proof fn lemma_label(v: Label)
    ensures
        read_label(no_label(), label_bytes(v)) == Some(v),
{
    let step = |m: Label, tag: nat, f: Field| label_step(m, tag, f);
    let m0 = no_label();
    let m1 = Label { key: v.key, ..m0 };
    let m2 = Label { text: v.text, ..m1 };
    let m3 = Label { num: v.num, ..m2 };
    let m4 = Label { num_unit: v.num_unit, ..m3 };
    let r4 = Seq::<u8>::empty();
    let r3 = scalar_bytes(4, v.num_unit as u64);
    let r2 = scalar_bytes(3, v.num as u64) + r3;
    let r1 = scalar_bytes(2, v.text as u64) + r2;
    assert(r3 =~= r3 + r4);
    lemma_word(v.key);
    lemma_word(v.text);
    lemma_word(v.num);
    lemma_word(v.num_unit);
    lemma_merge_scalar(m0, m1, 1, v.key as u64, r1, 2, step);
    lemma_merge_scalar(m1, m2, 2, v.text as u64, r2, 2, step);
    lemma_merge_scalar(m2, m3, 3, v.num as u64, r3, 2, step);
    lemma_merge_scalar(m3, m4, 4, v.num_unit as u64, r4, 2, step);
    assert(m4 == v);
}

proof fn lemma_mapping(v: Mapping)
    ensures
        read_mapping(no_mapping(), mapping_bytes(v)) == Some(v),
{
    let step = |m: Mapping, tag: nat, f: Field| mapping_step(m, tag, f);
    let m0 = no_mapping();
    let m1 = Mapping { id: v.id, ..m0 };
    let m2 = Mapping { memory_start: v.memory_start, ..m1 };
    let m3 = Mapping { memory_limit: v.memory_limit, ..m2 };
    let m4 = Mapping { file_offset: v.file_offset, ..m3 };
    let m5 = Mapping { filename: v.filename, ..m4 };
    let m6 = Mapping { build_id: v.build_id, ..m5 };
    let m7 = Mapping { has_functions: v.has_functions, ..m6 };
    let m8 = Mapping { has_filenames: v.has_filenames, ..m7 };
    let m9 = Mapping { has_line_numbers: v.has_line_numbers, ..m8 };
    let m10 = Mapping { has_inline_frames: v.has_inline_frames, ..m9 };
    let r10 = Seq::<u8>::empty();
    let r9 = scalar_bytes(10, bool_word(v.has_inline_frames));
    let r8 = scalar_bytes(9, bool_word(v.has_line_numbers)) + r9;
    let r7 = scalar_bytes(8, bool_word(v.has_filenames)) + r8;
    let r6 = scalar_bytes(7, bool_word(v.has_functions)) + r7;
    let r5 = scalar_bytes(6, v.build_id as u64) + r6;
    let r4 = scalar_bytes(5, v.filename as u64) + r5;
    let r3 = scalar_bytes(4, v.file_offset) + r4;
    let r2 = scalar_bytes(3, v.memory_limit) + r3;
    let r1 = scalar_bytes(2, v.memory_start) + r2;
    assert(r9 =~= r9 + r10);
    lemma_word(v.filename);
    lemma_word(v.build_id);
    lemma_merge_scalar(m0, m1, 1, v.id, r1, 1, step);
    lemma_merge_scalar(m1, m2, 2, v.memory_start, r2, 1, step);
    lemma_merge_scalar(m2, m3, 3, v.memory_limit, r3, 1, step);
    lemma_merge_scalar(m3, m4, 4, v.file_offset, r4, 1, step);
    lemma_merge_scalar(m4, m5, 5, v.filename as u64, r5, 1, step);
    lemma_merge_scalar(m5, m6, 6, v.build_id as u64, r6, 1, step);
    lemma_merge_scalar(m6, m7, 7, bool_word(v.has_functions), r7, 1, step);
    lemma_merge_scalar(m7, m8, 8, bool_word(v.has_filenames), r8, 1, step);
    lemma_merge_scalar(m8, m9, 9, bool_word(v.has_line_numbers), r9, 1, step);
    lemma_merge_scalar(m9, m10, 10, bool_word(v.has_inline_frames), r10, 1, step);
    assert(m10 == v);
}

proof fn lemma_line(v: Line)
    ensures
        read_line(no_line(), line_bytes(v)) == Some(v),
{
    let step = |m: Line, tag: nat, f: Field| line_step(m, tag, f);
    let m0 = no_line();
    let m1 = Line { function_id: v.function_id, ..m0 };
    let m2 = Line { line: v.line, ..m1 };
    let m3 = Line { column: v.column, ..m2 };
    let r3 = Seq::<u8>::empty();
    let r2 = scalar_bytes(3, v.column as u64);
    let r1 = scalar_bytes(2, v.line as u64) + r2;
    assert(r2 =~= r2 + r3);
    lemma_word(v.line);
    lemma_word(v.column);
    lemma_merge_scalar(m0, m1, 1, v.function_id, r1, 2, step);
    lemma_merge_scalar(m1, m2, 2, v.line as u64, r2, 2, step);
    lemma_merge_scalar(m2, m3, 3, v.column as u64, r3, 2, step);
    assert(m3 == v);
}

proof fn lemma_function(v: PprofFunction)
    ensures
        read_function(no_function(), function_bytes(v)) == Some(v),
{
    let step = |m: PprofFunction, tag: nat, f: Field| function_step(m, tag, f);
    let m0 = no_function();
    let m1 = PprofFunction { id: v.id, ..m0 };
    let m2 = PprofFunction { name: v.name, ..m1 };
    let m3 = PprofFunction { system_name: v.system_name, ..m2 };
    let m4 = PprofFunction { filename: v.filename, ..m3 };
    let m5 = PprofFunction { start_line: v.start_line, ..m4 };
    let r5 = Seq::<u8>::empty();
    let r4 = scalar_bytes(5, v.start_line as u64);
    let r3 = scalar_bytes(4, v.filename as u64) + r4;
    let r2 = scalar_bytes(3, v.system_name as u64) + r3;
    let r1 = scalar_bytes(2, v.name as u64) + r2;
    assert(r4 =~= r4 + r5);
    lemma_word(v.name);
    lemma_word(v.system_name);
    lemma_word(v.filename);
    lemma_word(v.start_line);
    lemma_merge_scalar(m0, m1, 1, v.id, r1, 1, step);
    lemma_merge_scalar(m1, m2, 2, v.name as u64, r2, 1, step);
    lemma_merge_scalar(m2, m3, 3, v.system_name as u64, r3, 1, step);
    lemma_merge_scalar(m3, m4, 4, v.filename as u64, r4, 1, step);
    lemma_merge_scalar(m4, m5, 5, v.start_line as u64, r5, 1, step);
    assert(m5 == v);
}

proof fn lemma_sample(v: SampleView)
    requires
        sample_bytes(v).len() <= u64::MAX,
    ensures
        read_sample(empty_sample(), sample_bytes(v)) == Some(v),
{
    let step = |m: SampleView, tag: nat, f: Field| sample_step(m, tag, f);
    let m0 = empty_sample();
    let m1 = SampleView { location_id: v.location_id, ..m0 };
    let m2 = SampleView { value: v.value, ..m1 };
    let list = label_list(v.label);
    let r2 = repeated_bytes(3, list);
    let r1 = packed_bytes(2, words(v.value)) + r2;
    law_varints_round_trip(v.location_id);
    law_varints_round_trip(words(v.value));
    lemma_words(v.value);
    assert(m0.location_id + v.location_id =~= v.location_id);
    assert(m1.value + v.value =~= v.value);
    assert(v.location_id.len() == 0 ==> m1 =~= m0);
    assert(v.value.len() == 0 ==> m2 =~= m1);
    lemma_merge_packed(m0, m1, 1, v.location_id, r1, 1, step);
    lemma_merge_packed(m1, m2, 2, words(v.value), r2, 1, step);
    let states = Seq::new(v.label.len() + 1, |i: int| SampleView { label: v.label.take(i), ..m2 });
    assert forall|i: int| 0 <= i < list.len() implies writable(3, Field::Bytes(#[trigger] list[i])) && step(
        states[i],
        3,
        Field::Bytes(list[i]),
    ) == Some(states[i + 1]) by {
        lemma_entry_len(3, list, i);
        lemma_label(v.label[i]);
        assert(v.label.take(i).push(v.label[i]) =~= v.label.take(i + 1));
    }
    lemma_merge_repeated(states, 3, list, Seq::empty(), 1, step);
    assert(r2 + Seq::<u8>::empty() =~= r2);
    assert(states[0] =~= m2);
    assert(states.last() =~= v);
}

proof fn lemma_location(v: LocationView)
    requires
        location_bytes(v).len() <= u64::MAX,
    ensures
        read_location(empty_location(), location_bytes(v)) == Some(v),
{
    let step = |m: LocationView, tag: nat, f: Field| location_step(m, tag, f);
    let m0 = empty_location();
    let m1 = LocationView { id: v.id, ..m0 };
    let m2 = LocationView { mapping_id: v.mapping_id, ..m1 };
    let m3 = LocationView { address: v.address, ..m2 };
    let m4 = LocationView { line: v.line, ..m3 };
    let list = line_list(v.line);
    let r4 = scalar_bytes(5, bool_word(v.is_folded));
    let r3 = repeated_bytes(4, list) + r4;
    let r2 = scalar_bytes(3, v.address) + r3;
    let r1 = scalar_bytes(2, v.mapping_id) + r2;
    lemma_merge_scalar(m0, m1, 1, v.id, r1, 1, step);
    lemma_merge_scalar(m1, m2, 2, v.mapping_id, r2, 1, step);
    lemma_merge_scalar(m2, m3, 3, v.address, r3, 1, step);
    let states = Seq::new(v.line.len() + 1, |i: int| LocationView { line: v.line.take(i), ..m3 });
    assert forall|i: int| 0 <= i < list.len() implies writable(4, Field::Bytes(#[trigger] list[i])) && step(
        states[i],
        4,
        Field::Bytes(list[i]),
    ) == Some(states[i + 1]) by {
        lemma_entry_len(4, list, i);
        lemma_line(v.line[i]);
        assert(v.line.take(i).push(v.line[i]) =~= v.line.take(i + 1));
    }
    lemma_merge_repeated(states, 4, list, r4, 1, step);
    assert(states[0] =~= m3);
    assert(states.last() =~= m4);
    assert(r4 + Seq::<u8>::empty() =~= r4);
    lemma_merge_scalar(m4, v, 5, bool_word(v.is_folded), Seq::empty(), 1, step);
}

proof fn lemma_sample_types(m: ProfileView, p: ProfileView, rest: Seq<u8>)
    requires
        m.sample_type.len() == 0,
        repeated_bytes(1, value_type_list(p.sample_type)).len() <= u64::MAX,
    ensures
        read_profile(m, repeated_bytes(1, value_type_list(p.sample_type)) + rest) == read_profile(
            ProfileView { sample_type: p.sample_type, ..m },
            rest,
        ),
{
    let step = |m: ProfileView, tag: nat, f: Field| profile_step(m, tag, f);
    let list = value_type_list(p.sample_type);
    let states = Seq::new(p.sample_type.len() + 1, |i: int| ProfileView { sample_type: p.sample_type.take(i), ..m });
    assert forall|i: int| 0 <= i < list.len() implies writable(1, Field::Bytes(#[trigger] list[i])) && step(
        states[i],
        1,
        Field::Bytes(list[i]),
    ) == Some(states[i + 1]) by {
        lemma_entry_len(1, list, i);
        lemma_value_type(p.sample_type[i]);
        assert(p.sample_type.take(i).push(p.sample_type[i]) =~= p.sample_type.take(i + 1));
    }
    lemma_merge_repeated(states, 1, list, rest, 0, step);
    assert(states[0] =~= m);
    assert(states.last() =~= ProfileView { sample_type: p.sample_type, ..m });
}

proof fn lemma_samples(m: ProfileView, p: ProfileView, rest: Seq<u8>)
    requires
        m.sample.len() == 0,
        repeated_bytes(2, sample_list(p.sample)).len() <= u64::MAX,
    ensures
        read_profile(m, repeated_bytes(2, sample_list(p.sample)) + rest) == read_profile(
            ProfileView { sample: p.sample, ..m },
            rest,
        ),
{
    let step = |m: ProfileView, tag: nat, f: Field| profile_step(m, tag, f);
    let list = sample_list(p.sample);
    let states = Seq::new(p.sample.len() + 1, |i: int| ProfileView { sample: p.sample.take(i), ..m });
    assert forall|i: int| 0 <= i < list.len() implies writable(2, Field::Bytes(#[trigger] list[i])) && step(
        states[i],
        2,
        Field::Bytes(list[i]),
    ) == Some(states[i + 1]) by {
        lemma_entry_len(2, list, i);
        lemma_sample(p.sample[i]);
        assert(p.sample.take(i).push(p.sample[i]) =~= p.sample.take(i + 1));
    }
    lemma_merge_repeated(states, 2, list, rest, 0, step);
    assert(states[0] =~= m);
    assert(states.last() =~= ProfileView { sample: p.sample, ..m });
}

proof fn lemma_mappings(m: ProfileView, p: ProfileView, rest: Seq<u8>)
    requires
        m.mapping.len() == 0,
        repeated_bytes(3, mapping_list(p.mapping)).len() <= u64::MAX,
    ensures
        read_profile(m, repeated_bytes(3, mapping_list(p.mapping)) + rest) == read_profile(
            ProfileView { mapping: p.mapping, ..m },
            rest,
        ),
{
    let step = |m: ProfileView, tag: nat, f: Field| profile_step(m, tag, f);
    let list = mapping_list(p.mapping);
    let states = Seq::new(p.mapping.len() + 1, |i: int| ProfileView { mapping: p.mapping.take(i), ..m });
    assert forall|i: int| 0 <= i < list.len() implies writable(3, Field::Bytes(#[trigger] list[i])) && step(
        states[i],
        3,
        Field::Bytes(list[i]),
    ) == Some(states[i + 1]) by {
        lemma_entry_len(3, list, i);
        lemma_mapping(p.mapping[i]);
        assert(p.mapping.take(i).push(p.mapping[i]) =~= p.mapping.take(i + 1));
    }
    lemma_merge_repeated(states, 3, list, rest, 0, step);
    assert(states[0] =~= m);
    assert(states.last() =~= ProfileView { mapping: p.mapping, ..m });
}

proof fn lemma_locations(m: ProfileView, p: ProfileView, rest: Seq<u8>)
    requires
        m.location.len() == 0,
        repeated_bytes(4, location_list(p.location)).len() <= u64::MAX,
    ensures
        read_profile(m, repeated_bytes(4, location_list(p.location)) + rest) == read_profile(
            ProfileView { location: p.location, ..m },
            rest,
        ),
{
    let step = |m: ProfileView, tag: nat, f: Field| profile_step(m, tag, f);
    let list = location_list(p.location);
    let states = Seq::new(p.location.len() + 1, |i: int| ProfileView { location: p.location.take(i), ..m });
    assert forall|i: int| 0 <= i < list.len() implies writable(4, Field::Bytes(#[trigger] list[i])) && step(
        states[i],
        4,
        Field::Bytes(list[i]),
    ) == Some(states[i + 1]) by {
        lemma_entry_len(4, list, i);
        lemma_location(p.location[i]);
        assert(p.location.take(i).push(p.location[i]) =~= p.location.take(i + 1));
    }
    lemma_merge_repeated(states, 4, list, rest, 0, step);
    assert(states[0] =~= m);
    assert(states.last() =~= ProfileView { location: p.location, ..m });
}

proof fn lemma_functions(m: ProfileView, p: ProfileView, rest: Seq<u8>)
    requires
        m.function.len() == 0,
        repeated_bytes(5, function_list(p.function)).len() <= u64::MAX,
    ensures
        read_profile(m, repeated_bytes(5, function_list(p.function)) + rest) == read_profile(
            ProfileView { function: p.function, ..m },
            rest,
        ),
{
    let step = |m: ProfileView, tag: nat, f: Field| profile_step(m, tag, f);
    let list = function_list(p.function);
    let states = Seq::new(p.function.len() + 1, |i: int| ProfileView { function: p.function.take(i), ..m });
    assert forall|i: int| 0 <= i < list.len() implies writable(5, Field::Bytes(#[trigger] list[i])) && step(
        states[i],
        5,
        Field::Bytes(list[i]),
    ) == Some(states[i + 1]) by {
        lemma_entry_len(5, list, i);
        lemma_function(p.function[i]);
        assert(p.function.take(i).push(p.function[i]) =~= p.function.take(i + 1));
    }
    lemma_merge_repeated(states, 5, list, rest, 0, step);
    assert(states[0] =~= m);
    assert(states.last() =~= ProfileView { function: p.function, ..m });
}

proof fn lemma_strings(m: ProfileView, p: ProfileView, rest: Seq<u8>)
    requires
        m.string_table.len() == 0,
        repeated_bytes(6, text_list(p.string_table)).len() <= u64::MAX,
    ensures
        read_profile(m, repeated_bytes(6, text_list(p.string_table)) + rest) == read_profile(
            ProfileView { string_table: p.string_table, ..m },
            rest,
        ),
{
    let step = |m: ProfileView, tag: nat, f: Field| profile_step(m, tag, f);
    let list = text_list(p.string_table);
    let states = Seq::new(p.string_table.len() + 1, |i: int| ProfileView { string_table: p.string_table.take(i), ..m });
    assert forall|i: int| 0 <= i < list.len() implies writable(6, Field::Bytes(#[trigger] list[i])) && step(
        states[i],
        6,
        Field::Bytes(list[i]),
    ) == Some(states[i + 1]) by {
        lemma_entry_len(6, list, i);
        encode_utf8_valid_utf8(p.string_table[i]);
        encode_utf8_decode_utf8(p.string_table[i]);
        assert(p.string_table.take(i).push(p.string_table[i]) =~= p.string_table.take(i + 1));
    }
    lemma_merge_repeated(states, 6, list, rest, 0, step);
    assert(states[0] =~= m);
    assert(states.last() =~= ProfileView { string_table: p.string_table, ..m });
}

proof fn lemma_tail(m: ProfileView, p: ProfileView)
    requires
        profile_tail_bytes(p).len() <= u64::MAX,
        m == (ProfileView {
            sample_type: p.sample_type,
            sample: p.sample,
            mapping: p.mapping,
            location: p.location,
            function: p.function,
            string_table: p.string_table,
            ..empty_profile()
        }),
    ensures
        read_profile(m, profile_tail_bytes(p)) == Some(p),
{
    let step = |m: ProfileView, tag: nat, f: Field| profile_step(m, tag, f);
    let m7 = ProfileView { drop_frames: p.drop_frames, ..m };
    let m8 = ProfileView { keep_frames: p.keep_frames, ..m7 };
    let m9 = ProfileView { time_nanos: p.time_nanos, ..m8 };
    let m10 = ProfileView { duration_nanos: p.duration_nanos, ..m9 };
    let m11 = ProfileView { period_type: p.period_type, ..m10 };
    let m12 = ProfileView { period: p.period, ..m11 };
    let m13 = ProfileView { comment: p.comment, ..m12 };
    let m14 = ProfileView { default_sample_type: p.default_sample_type, ..m13 };
    let r14 = scalar_bytes(15, p.doc_url as u64);
    let r13 = scalar_bytes(14, p.default_sample_type as u64) + r14;
    let r12 = packed_bytes(13, words(p.comment)) + r13;
    let r11 = scalar_bytes(12, p.period as u64) + r12;
    let r10 = period_type_bytes(p.period_type) + r11;
    let r9 = scalar_bytes(10, p.duration_nanos as u64) + r10;
    let r8 = scalar_bytes(9, p.time_nanos as u64) + r9;
    let r7 = scalar_bytes(8, p.keep_frames as u64) + r8;
    lemma_word(p.drop_frames);
    lemma_word(p.keep_frames);
    lemma_word(p.time_nanos);
    lemma_word(p.duration_nanos);
    lemma_word(p.period);
    lemma_word(p.default_sample_type);
    lemma_word(p.doc_url);
    lemma_merge_scalar(m, m7, 7, p.drop_frames as u64, r7, 0, step);
    lemma_merge_scalar(m7, m8, 8, p.keep_frames as u64, r8, 0, step);
    lemma_merge_scalar(m8, m9, 9, p.time_nanos as u64, r9, 0, step);
    lemma_merge_scalar(m9, m10, 10, p.duration_nanos as u64, r10, 0, step);
    match p.period_type {
        Some(t) => {
            lemma_value_type(t);
            lemma_merge_field(m10, 11, Field::Bytes(value_type_bytes(t)), r11, 0, step);
        },
        None => {
            assert(r10 =~= r11);
            assert(m11 =~= m10);
        },
    }
    lemma_merge_scalar(m11, m12, 12, p.period as u64, r12, 0, step);
    law_varints_round_trip(words(p.comment));
    lemma_words(p.comment);
    assert(m12.comment + p.comment =~= p.comment);
    assert(p.comment.len() == 0 ==> m13 =~= m12);
    lemma_merge_packed(m12, m13, 13, words(p.comment), r13, 0, step);
    lemma_merge_scalar(m13, m14, 14, p.default_sample_type as u64, r14, 0, step);
    assert(r14 + Seq::<u8>::empty() =~= r14);
    lemma_merge_scalar(m14, p, 15, p.doc_url as u64, Seq::empty(), 0, step);
}

/// Decoding the bytes of a profile gives the profile back. The bound is that of
/// the 64-bit lengths in the format.
pub proof fn law_decode_undoes_encode(p: ProfileView)
    requires
        profile_bytes(p).len() <= u64::MAX,
    ensures
        decoded(profile_bytes(p)) == Some(p),
{
    let r6 = profile_tail_bytes(p);
    let r5 = repeated_bytes(6, text_list(p.string_table)) + r6;
    let r4 = repeated_bytes(5, function_list(p.function)) + r5;
    let r3 = repeated_bytes(4, location_list(p.location)) + r4;
    let r2 = repeated_bytes(3, mapping_list(p.mapping)) + r3;
    let r1 = repeated_bytes(2, sample_list(p.sample)) + r2;
    let m0 = empty_profile();
    let m1 = ProfileView { sample_type: p.sample_type, ..m0 };
    let m2 = ProfileView { sample: p.sample, ..m1 };
    let m3 = ProfileView { mapping: p.mapping, ..m2 };
    let m4 = ProfileView { location: p.location, ..m3 };
    let m5 = ProfileView { function: p.function, ..m4 };
    let m6 = ProfileView { string_table: p.string_table, ..m5 };
    lemma_sample_types(m0, p, r1);
    lemma_samples(m1, p, r2);
    lemma_mappings(m2, p, r3);
    lemma_locations(m3, p, r4);
    lemma_functions(m4, p, r5);
    lemma_strings(m5, p, r6);
    lemma_tail(m6, p);
}

} // verus!

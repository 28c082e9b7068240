//! The keys that the fields of pprof messages go by, and how numbers and lines are written.
use vstd::prelude::*;
use vstd::utf8::{decode_utf8, valid_utf8};
use crate::codec::{
    function_step, label_step, line_step, location_step, mapping_step, no_function, no_label, no_line,
    no_mapping, no_value_type, profile_step, read_function, read_label, read_line, read_location,
    read_mapping, read_profile, read_sample, read_value_type, sample_step, signed, value_type_step,
};
use crate::proto::{
    empty_location, empty_sample, Label, Line, LocationView, Mapping, PprofFunction, ProfileView,
    SampleView, ValueType,
};
use crate::text::{dec, first_index, hex, is_space, lines, split_on, trim, trim_end, trim_start};
use crate::wire::{field_bytes, law_field_round_trip, merged, read_varints, varint, writable, Field};

verus! {

/// A number behind its key.
pub open spec fn keyed(key: u8, v: u64) -> Seq<u8> {
    seq![key] + varint(v as nat)
}

/// Bytes behind their key and their length.
pub open spec fn keyed_bytes(key: u8, b: Seq<u8>) -> Seq<u8> {
    seq![key] + varint(b.len()) + b
}

proof fn lemma_key(tag: nat, v: u64, b: Seq<u8>)
    requires
        0 < tag < 16,
    ensures
        field_bytes(tag, Field::Varint(v)) == keyed((8 * tag) as u8, v),
        8 * tag + 2 < 128 ==> field_bytes(tag, Field::Bytes(b)) == keyed_bytes((8 * tag + 2) as u8, b),
{
    assert(varint(tag * 8) =~= seq![(8 * tag) as u8]);
    if 8 * tag + 2 < 128 {
        assert(varint(tag * 8 + 2) =~= seq![(8 * tag + 2) as u8]);
        assert(field_bytes(tag, Field::Bytes(b)) =~= keyed_bytes((8 * tag + 2) as u8, b));
    }
}

proof fn lemma_one<M>(m: M, tag: nat, f: Field, depth: nat, step: spec_fn(M, nat, Field) -> Option<M>)
    requires
        writable(tag, f),
    ensures
        merged(m, field_bytes(tag, f), depth, step) == step(m, tag, f),
{
    let none = Seq::<u8>::empty();
    let b = field_bytes(tag, f);
    law_field_round_trip(tag, f, none, depth);
    assert(b + none =~= b);
    assert(b.skip(b.len() as int) =~= none);
    match step(m, tag, f) {
        Some(x) => {
            assert(merged(x, none, depth, step) == Some(x));
        },
        None => {},
    }
}

/// The keys of a value type.
pub proof fn law_value_type_keys(m: ValueType, v: u64)
    ensures
        read_value_type(m, keyed(0x08, v)) == Some(ValueType { ty: v as i64, ..m }),
        read_value_type(m, keyed(0x10, v)) == Some(ValueType { unit: v as i64, ..m }),
{
    let step = |m: ValueType, tag: nat, f: Field| value_type_step(m, tag, f);
    let f = Field::Varint(v);
    let none = Seq::<u8>::empty();
    lemma_key(1, v, none);
    lemma_key(2, v, none);
    lemma_one(m, 1, f, 1, step);
    lemma_one(m, 2, f, 1, step);
}

/// The keys of a label.
pub proof fn law_label_keys(m: Label, v: u64)
    ensures
        read_label(m, keyed(0x08, v)) == Some(Label { key: v as i64, ..m }),
        read_label(m, keyed(0x10, v)) == Some(Label { text: v as i64, ..m }),
        read_label(m, keyed(0x18, v)) == Some(Label { num: v as i64, ..m }),
        read_label(m, keyed(0x20, v)) == Some(Label { num_unit: v as i64, ..m }),
{
    let step = |m: Label, tag: nat, f: Field| label_step(m, tag, f);
    let f = Field::Varint(v);
    let none = Seq::<u8>::empty();
    lemma_key(1, v, none);
    lemma_key(2, v, none);
    lemma_key(3, v, none);
    lemma_key(4, v, none);
    lemma_one(m, 1, f, 2, step);
    lemma_one(m, 2, f, 2, step);
    lemma_one(m, 3, f, 2, step);
    lemma_one(m, 4, f, 2, step);
}

/// The keys of a line.
pub proof fn law_line_keys(m: Line, v: u64)
    ensures
        read_line(m, keyed(0x08, v)) == Some(Line { function_id: v, ..m }),
        read_line(m, keyed(0x10, v)) == Some(Line { line: v as i64, ..m }),
        read_line(m, keyed(0x18, v)) == Some(Line { column: v as i64, ..m }),
{
    let step = |m: Line, tag: nat, f: Field| line_step(m, tag, f);
    let f = Field::Varint(v);
    let none = Seq::<u8>::empty();
    lemma_key(1, v, none);
    lemma_key(2, v, none);
    lemma_key(3, v, none);
    lemma_one(m, 1, f, 2, step);
    lemma_one(m, 2, f, 2, step);
    lemma_one(m, 3, f, 2, step);
}

/// The keys of a function.
pub proof fn law_function_keys(m: PprofFunction, v: u64)
    ensures
        read_function(m, keyed(0x08, v)) == Some(PprofFunction { id: v, ..m }),
        read_function(m, keyed(0x10, v)) == Some(PprofFunction { name: v as i64, ..m }),
        read_function(m, keyed(0x18, v)) == Some(PprofFunction { system_name: v as i64, ..m }),
        read_function(m, keyed(0x20, v)) == Some(PprofFunction { filename: v as i64, ..m }),
        read_function(m, keyed(0x28, v)) == Some(PprofFunction { start_line: v as i64, ..m }),
{
    let step = |m: PprofFunction, tag: nat, f: Field| function_step(m, tag, f);
    let f = Field::Varint(v);
    let none = Seq::<u8>::empty();
    lemma_key(1, v, none);
    lemma_key(2, v, none);
    lemma_key(3, v, none);
    lemma_key(4, v, none);
    lemma_key(5, v, none);
    lemma_one(m, 1, f, 1, step);
    lemma_one(m, 2, f, 1, step);
    lemma_one(m, 3, f, 1, step);
    lemma_one(m, 4, f, 1, step);
    lemma_one(m, 5, f, 1, step);
}

/// The keys of a mapping.
pub proof fn law_mapping_keys(m: Mapping, v: u64)
    ensures
        read_mapping(m, keyed(0x08, v)) == Some(Mapping { id: v, ..m }),
        read_mapping(m, keyed(0x10, v)) == Some(Mapping { memory_start: v, ..m }),
        read_mapping(m, keyed(0x18, v)) == Some(Mapping { memory_limit: v, ..m }),
        read_mapping(m, keyed(0x20, v)) == Some(Mapping { file_offset: v, ..m }),
        read_mapping(m, keyed(0x28, v)) == Some(Mapping { filename: v as i64, ..m }),
        read_mapping(m, keyed(0x30, v)) == Some(Mapping { build_id: v as i64, ..m }),
        read_mapping(m, keyed(0x38, v)) == Some(Mapping { has_functions: v != 0, ..m }),
        read_mapping(m, keyed(0x40, v)) == Some(Mapping { has_filenames: v != 0, ..m }),
        read_mapping(m, keyed(0x48, v)) == Some(Mapping { has_line_numbers: v != 0, ..m }),
        read_mapping(m, keyed(0x50, v)) == Some(Mapping { has_inline_frames: v != 0, ..m }),
{
    let step = |m: Mapping, tag: nat, f: Field| mapping_step(m, tag, f);
    let f = Field::Varint(v);
    let none = Seq::<u8>::empty();
    lemma_key(1, v, none);
    lemma_key(2, v, none);
    lemma_key(3, v, none);
    lemma_key(4, v, none);
    lemma_key(5, v, none);
    lemma_key(6, v, none);
    lemma_key(7, v, none);
    lemma_key(8, v, none);
    lemma_key(9, v, none);
    lemma_key(10, v, none);
    lemma_one(m, 1, f, 1, step);
    lemma_one(m, 2, f, 1, step);
    lemma_one(m, 3, f, 1, step);
    lemma_one(m, 4, f, 1, step);
    lemma_one(m, 5, f, 1, step);
    lemma_one(m, 6, f, 1, step);
    lemma_one(m, 7, f, 1, step);
    lemma_one(m, 8, f, 1, step);
    lemma_one(m, 9, f, 1, step);
    lemma_one(m, 10, f, 1, step);
}

/// The keys of a location.
pub proof fn law_location_keys(m: LocationView, v: u64, b: Seq<u8>)
    requires
        b.len() <= u64::MAX,
    ensures
        read_location(m, keyed(0x08, v)) == Some(LocationView { id: v, ..m }),
        read_location(m, keyed(0x10, v)) == Some(LocationView { mapping_id: v, ..m }),
        read_location(m, keyed(0x18, v)) == Some(LocationView { address: v, ..m }),
        read_location(m, keyed(0x28, v)) == Some(LocationView { is_folded: v != 0, ..m }),
        read_line(no_line(), b) matches Some(x) ==> read_location(m, keyed_bytes(0x22, b)) == Some(
            LocationView { line: m.line.push(x), ..m },
        ),
{
    let step = |m: LocationView, tag: nat, f: Field| location_step(m, tag, f);
    let f = Field::Varint(v);
    lemma_key(1, v, b);
    lemma_key(2, v, b);
    lemma_key(3, v, b);
    lemma_key(4, v, b);
    lemma_key(5, v, b);
    lemma_one(m, 1, f, 1, step);
    lemma_one(m, 2, f, 1, step);
    lemma_one(m, 3, f, 1, step);
    lemma_one(m, 5, f, 1, step);
    lemma_one(m, 4, Field::Bytes(b), 1, step);
}

/// The keys of a sample. Its numbers may stand one by one, or many together.
pub proof fn law_sample_keys(m: SampleView, v: u64, b: Seq<u8>)
    requires
        b.len() <= u64::MAX,
    ensures
        read_sample(m, keyed(0x08, v)) == Some(SampleView { location_id: m.location_id.push(v), ..m }),
        read_sample(m, keyed(0x10, v)) == Some(SampleView { value: m.value.push(v as i64), ..m }),
        read_varints(b) matches Some(vs) ==> read_sample(m, keyed_bytes(0x0a, b)) == Some(
            SampleView { location_id: m.location_id + vs, ..m },
        ) && read_sample(m, keyed_bytes(0x12, b)) == Some(
            SampleView { value: m.value + Seq::new(vs.len(), |i: int| vs[i] as i64), ..m },
        ),
        read_label(no_label(), b) matches Some(x) ==> read_sample(m, keyed_bytes(0x1a, b)) == Some(
            SampleView { label: m.label.push(x), ..m },
        ),
{
    let step = |m: SampleView, tag: nat, f: Field| sample_step(m, tag, f);
    let f = Field::Varint(v);
    lemma_key(1, v, b);
    lemma_key(2, v, b);
    lemma_key(3, v, b);
    lemma_one(m, 1, f, 1, step);
    lemma_one(m, 2, f, 1, step);
    lemma_one(m, 1, Field::Bytes(b), 1, step);
    lemma_one(m, 2, Field::Bytes(b), 1, step);
    lemma_one(m, 3, Field::Bytes(b), 1, step);
    assert(m.location_id + seq![v] =~= m.location_id.push(v));
    assert(signed(seq![v]) =~= seq![v as i64]);
    assert(m.value + signed(seq![v]) =~= m.value.push(v as i64));
}

/// The keys of the numbers of a profile.
pub proof fn law_profile_keys(m: ProfileView, v: u64)
    ensures
        read_profile(m, keyed(0x38, v)) == Some(ProfileView { drop_frames: v as i64, ..m }),
        read_profile(m, keyed(0x40, v)) == Some(ProfileView { keep_frames: v as i64, ..m }),
        read_profile(m, keyed(0x48, v)) == Some(ProfileView { time_nanos: v as i64, ..m }),
        read_profile(m, keyed(0x50, v)) == Some(ProfileView { duration_nanos: v as i64, ..m }),
        read_profile(m, keyed(0x60, v)) == Some(ProfileView { period: v as i64, ..m }),
        read_profile(m, keyed(0x68, v)) == Some(ProfileView { comment: m.comment.push(v as i64), ..m }),
        read_profile(m, keyed(0x70, v)) == Some(ProfileView { default_sample_type: v as i64, ..m }),
        read_profile(m, keyed(0x78, v)) == Some(ProfileView { doc_url: v as i64, ..m }),
{
    let step = |m: ProfileView, tag: nat, f: Field| profile_step(m, tag, f);
    let f = Field::Varint(v);
    let none = Seq::<u8>::empty();
    lemma_key(7, v, none);
    lemma_key(8, v, none);
    lemma_key(9, v, none);
    lemma_key(10, v, none);
    lemma_key(12, v, none);
    lemma_key(13, v, none);
    lemma_key(14, v, none);
    lemma_key(15, v, none);
    lemma_one(m, 7, f, 0, step);
    lemma_one(m, 8, f, 0, step);
    lemma_one(m, 9, f, 0, step);
    lemma_one(m, 10, f, 0, step);
    lemma_one(m, 12, f, 0, step);
    lemma_one(m, 13, f, 0, step);
    lemma_one(m, 14, f, 0, step);
    lemma_one(m, 15, f, 0, step);
    assert(signed(seq![v]) =~= seq![v as i64]);
    assert(m.comment + signed(seq![v]) =~= m.comment.push(v as i64));
}

/// The keys of the entries of a profile.
pub proof fn law_profile_entries(m: ProfileView, b: Seq<u8>)
    requires
        b.len() <= u64::MAX,
    ensures
        read_value_type(no_value_type(), b) matches Some(x) ==> read_profile(m, keyed_bytes(0x0a, b)) == Some(
            ProfileView { sample_type: m.sample_type.push(x), ..m },
        ),
        read_sample(empty_sample(), b) matches Some(x) ==> read_profile(m, keyed_bytes(0x12, b)) == Some(
            ProfileView { sample: m.sample.push(x), ..m },
        ),
        read_mapping(no_mapping(), b) matches Some(x) ==> read_profile(m, keyed_bytes(0x1a, b)) == Some(
            ProfileView { mapping: m.mapping.push(x), ..m },
        ),
        read_location(empty_location(), b) matches Some(x) ==> read_profile(m, keyed_bytes(0x22, b)) == Some(
            ProfileView { location: m.location.push(x), ..m },
        ),
        read_function(no_function(), b) matches Some(x) ==> read_profile(m, keyed_bytes(0x2a, b)) == Some(
            ProfileView { function: m.function.push(x), ..m },
        ),
        valid_utf8(b) ==> read_profile(m, keyed_bytes(0x32, b)) == Some(
            ProfileView { string_table: m.string_table.push(decode_utf8(b)), ..m },
        ),
        m.period_type is None ==> (read_value_type(no_value_type(), b) matches Some(x) ==> read_profile(
            m,
            keyed_bytes(0x5a, b),
        ) == Some(ProfileView { period_type: Some(x), ..m })),
{
    let step = |m: ProfileView, tag: nat, f: Field| profile_step(m, tag, f);
    let f = Field::Bytes(b);
    lemma_key(1, 0, b);
    lemma_key(2, 0, b);
    lemma_key(3, 0, b);
    lemma_key(4, 0, b);
    lemma_key(5, 0, b);
    lemma_key(6, 0, b);
    lemma_key(11, 0, b);
    lemma_one(m, 1, f, 0, step);
    lemma_one(m, 2, f, 0, step);
    lemma_one(m, 3, f, 0, step);
    lemma_one(m, 4, f, 0, step);
    lemma_one(m, 5, f, 0, step);
    lemma_one(m, 6, f, 0, step);
    lemma_one(m, 11, f, 0, step);
}

/// A decimal number ends in its last digit, from `0` to `9`, behind the rest of it.
pub proof fn law_decimal_digits(n: nat, d: nat, c: char)
    requires
        d < 10,
        c as int == '0' as int + d,
    ensures
        dec(d) == seq![c],
        n > 0 ==> dec(10 * n + d) == dec(n).push(c),
{
    assert((10 * n + d) / 10 == n && (10 * n + d) % 10 == d);
}

/// A hexadecimal number ends in its last digit, from `0` to `9` and on from `a` to `f`.
pub proof fn law_hexadecimal_digits(n: nat, d: nat, c: char)
    requires
        d < 16,
        d < 10 ==> c as int == '0' as int + d,
        d >= 10 ==> c as int == 'a' as int + (d - 10),
    ensures
        hex(d) == seq![c],
        n > 0 ==> hex(16 * n + d) == hex(n).push(c),
{
    assert((16 * n + d) / 16 == n && (16 * n + d) % 16 == d);
}

proof fn lemma_no_index(s: Seq<char>, c: char)
    requires
        !s.contains(c),
    ensures
        first_index(s, c) is None,
    decreases s.len(),
{
    if s.len() > 0 {
        assert(s.contains(s[0]));
        assert(!s.drop_first().contains(c)) by {
            if s.drop_first().contains(c) {
                assert(s[s.drop_first().index_of(c) + 1] == c);
            }
        }
        lemma_no_index(s.drop_first(), c);
    }
}

proof fn lemma_index_at(a: Seq<char>, c: char, b: Seq<char>)
    requires
        !a.contains(c),
    ensures
        first_index(a + seq![c] + b, c) == Some(a.len() as int),
    decreases a.len(),
{
    let s = a + seq![c] + b;
    if a.len() == 0 {
        assert(s[0] == c);
    } else {
        let rest = a.drop_first();
        assert(a.contains(a[0]));
        assert(s[0] == a[0]);
        assert(s.drop_first() =~= rest + seq![c] + b);
        assert(!rest.contains(c)) by {
            if rest.contains(c) {
                assert(a[rest.index_of(c) + 1] == c);
            }
        }
        lemma_index_at(rest, c, b);
    }
}

/// A text is split at each separator.
pub proof fn law_split(a: Seq<char>, c: char, b: Seq<char>)
    requires
        !a.contains(c),
    ensures
        split_on(a, c) == seq![a],
        split_on(a + seq![c] + b, c) == seq![a] + split_on(b, c),
{
    let s = a + seq![c] + b;
    lemma_no_index(a, c);
    lemma_index_at(a, c, b);
    assert(s.take(a.len() as int) =~= a);
    assert(s.skip(a.len() as int + 1) =~= b);
}

/// A line ends at its line feed, which a carriage return may stand before.
pub proof fn law_lines(a: Seq<char>, b: Seq<char>)
    requires
        !a.contains('\n'),
        a.len() > 0 ==> a.last() != '\r',
    ensures
        lines(Seq::empty()) == Seq::<Seq<char>>::empty(),
        a.len() > 0 ==> lines(a) == seq![a],
        lines(a + seq!['\n'] + b) == seq![a] + lines(b),
        lines(a.push('\r') + seq!['\n'] + b) == seq![a] + lines(b),
{
    let nl = '\n';
    let s = a + seq![nl] + b;
    let x = a.push('\r');
    let t = x + seq![nl] + b;
    lemma_no_index(a, nl);
    lemma_index_at(a, nl, b);
    assert(!x.contains(nl)) by {
        if x.contains(nl) {
            let i = x.index_of(nl);
            assert(x[i] == nl);
            assert(a[i] == nl);
        }
    }
    lemma_index_at(x, nl, b);
    assert(s.take(a.len() as int) =~= a);
    assert(s.skip(a.len() as int + 1) =~= b);
    assert(t.take(x.len() as int) =~= x);
    assert(t.skip(x.len() as int + 1) =~= b);
    assert(x.drop_last() =~= a);
}

/// White space around a text is taken off, and that within it stays.
pub proof fn law_trimmed(a: Seq<char>, s: Seq<char>, b: Seq<char>)
    requires
        forall|i: int| 0 <= i < a.len() ==> is_space(#[trigger] a[i]),
        forall|i: int| 0 <= i < b.len() ==> is_space(#[trigger] b[i]),
        s.len() > 0 ==> !is_space(s[0]) && !is_space(s.last()),
    ensures
        trim(a + s + b) == s,
    decreases a.len() + b.len(),
{
    let all = a + s + b;
    if a.len() > 0 {
        let rest = a.drop_first();
        assert(is_space(a[0]));
        assert(all[0] == a[0]);
        assert(all.drop_first() =~= rest + s + b);
        assert forall|i: int| 0 <= i < rest.len() implies is_space(#[trigger] rest[i]) by {
            assert(is_space(a[i + 1]));
        }
        law_trimmed(rest, s, b);
    } else if s.len() == 0 {
        assert(all =~= b);
        if b.len() > 0 {
            let rest = b.drop_first();
            assert(is_space(b[0]));
            assert forall|i: int| 0 <= i < rest.len() implies is_space(#[trigger] rest[i]) by {
                assert(is_space(b[i + 1]));
            }
            law_trimmed(a, s, rest);
            assert(a + s + rest =~= rest);
        } else {
            assert(s =~= b);
        }
    } else {
        assert(all[0] == s[0]);
        assert(trim_start(all) == all);
        assert(all =~= s + b);
        lemma_trim_end(s, b);
    }
}

proof fn lemma_trim_end(s: Seq<char>, b: Seq<char>)
    requires
        forall|i: int| 0 <= i < b.len() ==> is_space(#[trigger] b[i]),
        s.len() > 0,
        !is_space(s.last()),
    ensures
        trim_end(s + b) == s,
    decreases b.len(),
{
    let all = s + b;
    if b.len() == 0 {
        assert(all =~= s);
    } else {
        let front = b.drop_last();
        assert(is_space(b[b.len() - 1]));
        assert(all.drop_last() =~= s + front);
        assert forall|i: int| 0 <= i < front.len() implies is_space(#[trigger] front[i]) by {
            assert(is_space(b[i]));
        }
        lemma_trim_end(s, front);
    }
}

} // verus!

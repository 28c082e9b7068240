//! Writing pprof profiles as protobuf bytes.
use vstd::prelude::*;
use crate::codec::{
    bool_word, function_bytes, function_list, label_bytes, label_list, line_bytes, line_list, location_bytes,
    location_list, mapping_bytes, mapping_list, period_type_bytes, profile_bytes,
    profile_tail_bytes, sample_bytes, sample_list, text_list, value_type_bytes, value_type_list,
    words,
};
use crate::proto::{
    location_views, sample_views, texts, PprofFunction, Label, Line, Location, Mapping, Profile, Sample,
    ValueType,
};
use crate::wire::{
    field_bytes, packed_bytes, put_bytes, put_packed, put_scalar, repeated_bytes, scalar_bytes,
    Field,
};

verus! {

proof fn lemma_repeated_next(tag: nat, list: Seq<Seq<u8>>, i: int)
    requires
        0 <= i < list.len(),
    ensures
        repeated_bytes(tag, list.take(i + 1)) == repeated_bytes(tag, list.take(i)) + field_bytes(
            tag,
            Field::Bytes(list[i]),
        ),
{
    assert(list.take(i + 1).drop_last() =~= list.take(i));
}

proof fn lemma_regroup_4(a: Seq<u8>, b: Seq<u8>, c: Seq<u8>, d: Seq<u8>)
    ensures
        ((a + b) + c) + d == a + (b + (c + d)),
{
    assert(((a + b) + c) + d =~= a + (b + (c + d)));
}

proof fn lemma_regroup_5(a: Seq<u8>, b: Seq<u8>, c: Seq<u8>, d: Seq<u8>, e: Seq<u8>)
    ensures
        (((a + b) + c) + d) + e == a + (b + (c + (d + e))),
{
    lemma_regroup_4(a + b, c, d, e);
    assert((a + b) + (c + (d + e)) =~= a + (b + (c + (d + e))));
}

proof fn lemma_regroup_6(a: Seq<u8>, b: Seq<u8>, c: Seq<u8>, d: Seq<u8>, e: Seq<u8>, f: Seq<u8>)
    ensures
        ((((a + b) + c) + d) + e) + f == a + (b + (c + (d + (e + f)))),
{
    lemma_regroup_5(a + b, c, d, e, f);
    assert((a + b) + (c + (d + (e + f))) =~= a + (b + (c + (d + (e + f)))));
}

proof fn lemma_regroup_7(a: Seq<u8>, b: Seq<u8>, c: Seq<u8>, d: Seq<u8>, e: Seq<u8>, f: Seq<u8>, g: Seq<u8>)
    ensures
        (((((a + b) + c) + d) + e) + f) + g == a + (b + (c + (d + (e + (f + g))))),
{
    lemma_regroup_6(a + b, c, d, e, f, g);
    assert((a + b) + (c + (d + (e + (f + g)))) =~= a + (b + (c + (d + (e + (f + g))))));
}

proof fn lemma_regroup_8(a: Seq<u8>, b: Seq<u8>, c: Seq<u8>, d: Seq<u8>, e: Seq<u8>, f: Seq<u8>, g: Seq<u8>, h: Seq<u8>)
    ensures
        ((((((a + b) + c) + d) + e) + f) + g) + h == a + (b + (c + (d + (e + (f + (g + h)))))),
{
    lemma_regroup_7(a + b, c, d, e, f, g, h);
    assert((a + b) + (c + (d + (e + (f + (g + h))))) =~= a + (b + (c + (d + (e + (f + (g + h)))))));
}

proof fn lemma_regroup_9(a: Seq<u8>, b: Seq<u8>, c: Seq<u8>, d: Seq<u8>, e: Seq<u8>, f: Seq<u8>, g: Seq<u8>, h: Seq<u8>, i: Seq<u8>)
    ensures
        (((((((a + b) + c) + d) + e) + f) + g) + h) + i == a + (b + (c + (d + (e + (f + (g + (h + i))))))),
{
    lemma_regroup_8(a + b, c, d, e, f, g, h, i);
    assert((a + b) + (c + (d + (e + (f + (g + (h + i)))))) =~= a + (b + (c + (d + (e + (f + (g + (h + i))))))));
}

proof fn lemma_regroup_10(a: Seq<u8>, b: Seq<u8>, c: Seq<u8>, d: Seq<u8>, e: Seq<u8>, f: Seq<u8>, g: Seq<u8>, h: Seq<u8>, i: Seq<u8>, j: Seq<u8>)
    ensures
        ((((((((a + b) + c) + d) + e) + f) + g) + h) + i) + j == a + (b + (c + (d + (e + (f + (g + (h + (i + j)))))))),
{
    lemma_regroup_9(a + b, c, d, e, f, g, h, i, j);
    assert((a + b) + (c + (d + (e + (f + (g + (h + (i + j))))))) =~= a + (b + (c + (d + (e + (f + (g + (h + (i + j)))))))));
}

fn to_words(vs: &Vec<i64>) -> (r: Vec<u64>)
    ensures
        r@ == words(vs@),
{
    let mut r: Vec<u64> = Vec::new();
    for i in 0..vs.len()
        invariant
            r@ == words(vs@).take(i as int),
    {
        r.push(vs[i] as u64);
        assert(r@ =~= words(vs@).take(i + 1));
    }
    assert(words(vs@).take(vs@.len() as int) =~= words(vs@));
    r
}

fn word(b: bool) -> (r: u64)
    ensures
        r == bool_word(b),
{
    if b {
        1
    } else {
        0
    }
}

fn encode_value_type(v: &ValueType) -> (b: Vec<u8>)
    ensures
        b@ == value_type_bytes(*v),
{
    let mut b: Vec<u8> = Vec::new();
    put_scalar(&mut b, 1, v.ty as u64);
    put_scalar(&mut b, 2, v.unit as u64);
    assert(b@ =~= value_type_bytes(*v));
    b
}

fn encode_label(v: &Label) -> (b: Vec<u8>)
    ensures
        b@ == label_bytes(*v),
{
    let mut b: Vec<u8> = Vec::new();
    put_scalar(&mut b, 1, v.key as u64);
    put_scalar(&mut b, 2, v.text as u64);
    put_scalar(&mut b, 3, v.num as u64);
    put_scalar(&mut b, 4, v.num_unit as u64);
    assert(b@ =~= label_bytes(*v));
    b
}

fn encode_mapping(v: &Mapping) -> (b: Vec<u8>)
    ensures
        b@ == mapping_bytes(*v),
{
    let mut b: Vec<u8> = Vec::new();
    put_scalar(&mut b, 1, v.id);
    assert(b@ =~= scalar_bytes(1, v.id));
    put_scalar(&mut b, 2, v.memory_start);
    put_scalar(&mut b, 3, v.memory_limit);
    put_scalar(&mut b, 4, v.file_offset);
    put_scalar(&mut b, 5, v.filename as u64);
    put_scalar(&mut b, 6, v.build_id as u64);
    put_scalar(&mut b, 7, word(v.has_functions));
    put_scalar(&mut b, 8, word(v.has_filenames));
    put_scalar(&mut b, 9, word(v.has_line_numbers));
    put_scalar(&mut b, 10, word(v.has_inline_frames));
    proof {
        lemma_regroup_10(
            scalar_bytes(1, v.id),
            scalar_bytes(2, v.memory_start),
            scalar_bytes(3, v.memory_limit),
            scalar_bytes(4, v.file_offset),
            scalar_bytes(5, v.filename as u64),
            scalar_bytes(6, v.build_id as u64),
            scalar_bytes(7, bool_word(v.has_functions)),
            scalar_bytes(8, bool_word(v.has_filenames)),
            scalar_bytes(9, bool_word(v.has_line_numbers)),
            scalar_bytes(10, bool_word(v.has_inline_frames)),
        );
    }
    b
}

fn encode_line(v: &Line) -> (b: Vec<u8>)
    ensures
        b@ == line_bytes(*v),
{
    let mut b: Vec<u8> = Vec::new();
    put_scalar(&mut b, 1, v.function_id);
    put_scalar(&mut b, 2, v.line as u64);
    put_scalar(&mut b, 3, v.column as u64);
    assert(b@ =~= line_bytes(*v));
    b
}

fn encode_function(v: &PprofFunction) -> (b: Vec<u8>)
    ensures
        b@ == function_bytes(*v),
{
    let mut b: Vec<u8> = Vec::new();
    put_scalar(&mut b, 1, v.id);
    put_scalar(&mut b, 2, v.name as u64);
    put_scalar(&mut b, 3, v.system_name as u64);
    put_scalar(&mut b, 4, v.filename as u64);
    put_scalar(&mut b, 5, v.start_line as u64);
    assert(b@ =~= function_bytes(*v));
    b
}

fn encode_sample(v: &Sample) -> (b: Vec<u8>)
    ensures
        b@ == sample_bytes(v@),
{
    let mut b: Vec<u8> = Vec::new();
    put_packed(&mut b, 1, v.location_id.as_slice());
    let values = to_words(&v.value);
    put_packed(&mut b, 2, values.as_slice());
    let ghost head = b@;
    let ghost list = label_list(v.label@);
    assert(head =~= head + repeated_bytes(3, list.take(0)));
    for i in 0..v.label.len()
        invariant
            list == label_list(v.label@),
            b@ == head + repeated_bytes(3, list.take(i as int)),
    {
        let one = encode_label(&v.label[i]);
        put_bytes(&mut b, 3, one.as_slice());
        proof {
            lemma_repeated_next(3, list, i as int);
        }
        assert(b@ =~= head + repeated_bytes(3, list.take(i + 1)));
    }
    assert(list.take(v.label@.len() as int) =~= list);
    assert(b@ =~= sample_bytes(v@));
    b
}

fn encode_location(v: &Location) -> (b: Vec<u8>)
    ensures
        b@ == location_bytes(v@),
{
    let mut b: Vec<u8> = Vec::new();
    put_scalar(&mut b, 1, v.id);
    put_scalar(&mut b, 2, v.mapping_id);
    put_scalar(&mut b, 3, v.address);
    let ghost head = b@;
    let ghost list = line_list(v.line@);
    assert(head =~= head + repeated_bytes(4, list.take(0)));
    for i in 0..v.line.len()
        invariant
            list == line_list(v.line@),
            b@ == head + repeated_bytes(4, list.take(i as int)),
    {
        let one = encode_line(&v.line[i]);
        put_bytes(&mut b, 4, one.as_slice());
        proof {
            lemma_repeated_next(4, list, i as int);
        }
        assert(b@ =~= head + repeated_bytes(4, list.take(i + 1)));
    }
    assert(list.take(v.line@.len() as int) =~= list);
    put_scalar(&mut b, 5, word(v.is_folded));
    assert(b@ =~= location_bytes(v@));
    b
}

fn put_value_types(buf: &mut Vec<u8>, vs: &Vec<ValueType>)
    ensures
        final(buf)@ == old(buf)@ + repeated_bytes(1, value_type_list(vs@)),
{
    let ghost list = value_type_list(vs@);
    assert(buf@ =~= old(buf)@ + repeated_bytes(1, list.take(0)));
    for i in 0..vs.len()
        invariant
            list == value_type_list(vs@),
            buf@ == old(buf)@ + repeated_bytes(1, list.take(i as int)),
    {
        let one = encode_value_type(&vs[i]);
        put_bytes(buf, 1, one.as_slice());
        proof {
            lemma_repeated_next(1, list, i as int);
        }
        assert(buf@ =~= old(buf)@ + repeated_bytes(1, list.take(i + 1)));
    }
    assert(list.take(vs@.len() as int) =~= list);
}

fn put_samples(buf: &mut Vec<u8>, vs: &Vec<Sample>)
    ensures
        final(buf)@ == old(buf)@ + repeated_bytes(2, sample_list(sample_views(vs@))),
{
    let ghost list = sample_list(sample_views(vs@));
    assert(buf@ =~= old(buf)@ + repeated_bytes(2, list.take(0)));
    for i in 0..vs.len()
        invariant
            list == sample_list(sample_views(vs@)),
            buf@ == old(buf)@ + repeated_bytes(2, list.take(i as int)),
    {
        let one = encode_sample(&vs[i]);
        put_bytes(buf, 2, one.as_slice());
        proof {
            lemma_repeated_next(2, list, i as int);
        }
        assert(buf@ =~= old(buf)@ + repeated_bytes(2, list.take(i + 1)));
    }
    assert(list.take(vs@.len() as int) =~= list);
}

fn put_mappings(buf: &mut Vec<u8>, vs: &Vec<Mapping>)
    ensures
        final(buf)@ == old(buf)@ + repeated_bytes(3, mapping_list(vs@)),
{
    let ghost list = mapping_list(vs@);
    assert(buf@ =~= old(buf)@ + repeated_bytes(3, list.take(0)));
    for i in 0..vs.len()
        invariant
            list == mapping_list(vs@),
            buf@ == old(buf)@ + repeated_bytes(3, list.take(i as int)),
    {
        let one = encode_mapping(&vs[i]);
        put_bytes(buf, 3, one.as_slice());
        proof {
            lemma_repeated_next(3, list, i as int);
        }
        assert(buf@ =~= old(buf)@ + repeated_bytes(3, list.take(i + 1)));
    }
    assert(list.take(vs@.len() as int) =~= list);
}

fn put_locations(buf: &mut Vec<u8>, vs: &Vec<Location>)
    ensures
        final(buf)@ == old(buf)@ + repeated_bytes(4, location_list(location_views(vs@))),
{
    let ghost list = location_list(location_views(vs@));
    assert(buf@ =~= old(buf)@ + repeated_bytes(4, list.take(0)));
    for i in 0..vs.len()
        invariant
            list == location_list(location_views(vs@)),
            buf@ == old(buf)@ + repeated_bytes(4, list.take(i as int)),
    {
        let one = encode_location(&vs[i]);
        put_bytes(buf, 4, one.as_slice());
        proof {
            lemma_repeated_next(4, list, i as int);
        }
        assert(buf@ =~= old(buf)@ + repeated_bytes(4, list.take(i + 1)));
    }
    assert(list.take(vs@.len() as int) =~= list);
}

fn put_functions(buf: &mut Vec<u8>, vs: &Vec<PprofFunction>)
    ensures
        final(buf)@ == old(buf)@ + repeated_bytes(5, function_list(vs@)),
{
    let ghost list = function_list(vs@);
    assert(buf@ =~= old(buf)@ + repeated_bytes(5, list.take(0)));
    for i in 0..vs.len()
        invariant
            list == function_list(vs@),
            buf@ == old(buf)@ + repeated_bytes(5, list.take(i as int)),
    {
        let one = encode_function(&vs[i]);
        put_bytes(buf, 5, one.as_slice());
        proof {
            lemma_repeated_next(5, list, i as int);
        }
        assert(buf@ =~= old(buf)@ + repeated_bytes(5, list.take(i + 1)));
    }
    assert(list.take(vs@.len() as int) =~= list);
}

fn put_texts(buf: &mut Vec<u8>, vs: &Vec<String>)
    ensures
        final(buf)@ == old(buf)@ + repeated_bytes(6, text_list(texts(vs@))),
{
    let ghost list = text_list(texts(vs@));
    assert(buf@ =~= old(buf)@ + repeated_bytes(6, list.take(0)));
    for i in 0..vs.len()
        invariant
            list == text_list(texts(vs@)),
            buf@ == old(buf)@ + repeated_bytes(6, list.take(i as int)),
    {
        put_bytes(buf, 6, vs[i].as_str().as_bytes());
        proof {
            lemma_repeated_next(6, list, i as int);
        }
        assert(buf@ =~= old(buf)@ + repeated_bytes(6, list.take(i + 1)));
    }
    assert(list.take(vs@.len() as int) =~= list);
}

fn put_profile_tail(buf: &mut Vec<u8>, p: &Profile)
    ensures
        final(buf)@ == old(buf)@ + profile_tail_bytes(p@),
{
    let mut b: Vec<u8> = Vec::new();
    put_scalar(&mut b, 7, p.drop_frames as u64);
    assert(b@ =~= scalar_bytes(7, p.drop_frames as u64));
    put_scalar(&mut b, 8, p.keep_frames as u64);
    put_scalar(&mut b, 9, p.time_nanos as u64);
    put_scalar(&mut b, 10, p.duration_nanos as u64);
    let ghost head = b@;
    if let Some(t) = p.period_type {
        let one = encode_value_type(&t);
        put_bytes(&mut b, 11, one.as_slice());
    }
    assert(b@ =~= head + period_type_bytes(p@.period_type));
    put_scalar(&mut b, 12, p.period as u64);
    let comment = to_words(&p.comment);
    put_packed(&mut b, 13, comment.as_slice());
    put_scalar(&mut b, 14, p.default_sample_type as u64);
    put_scalar(&mut b, 15, p.doc_url as u64);
    proof {
        lemma_regroup_9(
            scalar_bytes(7, p.drop_frames as u64),
            scalar_bytes(8, p.keep_frames as u64),
            scalar_bytes(9, p.time_nanos as u64),
            scalar_bytes(10, p.duration_nanos as u64),
            period_type_bytes(p.period_type),
            scalar_bytes(12, p.period as u64),
            packed_bytes(13, words(p.comment@)),
            scalar_bytes(14, p.default_sample_type as u64),
            scalar_bytes(15, p.doc_url as u64),
        );
    }
    buf.append(&mut b);
}

/// The protobuf bytes of a profile.
pub fn encode_profile_bytes(p: &Profile) -> (b: Vec<u8>)
    ensures
        b@ == profile_bytes(p@),
{
    let mut b: Vec<u8> = Vec::new();
    put_value_types(&mut b, &p.sample_type);
    assert(b@ =~= repeated_bytes(1, value_type_list(p@.sample_type)));
    put_samples(&mut b, &p.sample);
    put_mappings(&mut b, &p.mapping);
    put_locations(&mut b, &p.location);
    put_functions(&mut b, &p.function);
    put_texts(&mut b, &p.string_table);
    put_profile_tail(&mut b, p);
    proof {
        lemma_regroup_7(
            repeated_bytes(1, value_type_list(p@.sample_type)),
            repeated_bytes(2, sample_list(p@.sample)),
            repeated_bytes(3, mapping_list(p@.mapping)),
            repeated_bytes(4, location_list(p@.location)),
            repeated_bytes(5, function_list(p@.function)),
            repeated_bytes(6, text_list(p@.string_table)),
            profile_tail_bytes(p@),
        );
    }
    b
}

} // verus!

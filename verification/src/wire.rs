//! The protobuf wire format, as far as the pprof messages use it: variable
//! length integers, field keys, and the fields that a message is made of.
use vstd::prelude::*;
use vstd::slice::slice_subrange;

verus! {

/// What `prost::DecodeError` holds stays unread.
#[verifier::external_type_specification]
#[verifier::external_body]
pub struct ExDecodeError(prost::DecodeError);

/// `n` in base 128, lowest digit first, the high bit set on all but the last byte.
pub open spec fn varint(n: nat) -> Seq<u8>
    decreases n,
{
    if n < 128 {
        seq![n as u8]
    } else {
        seq![(n % 128 + 128) as u8] + varint(n / 128)
    }
}

/// The integer at the front of `b`, of which `k` bytes have been read already, and
/// the number of bytes it takes. At most ten bytes in all are read, and a tenth
/// byte holds one bit.
pub open spec fn varint_rest(b: Seq<u8>, k: nat) -> Option<(nat, nat)>
    decreases 10 - k,
{
    if k >= 10 || b.len() == 0 {
        None
    } else if b[0] < 128 {
        if k == 9 && b[0] >= 2 {
            None
        } else {
            Some((b[0] as nat, 1))
        }
    } else {
        match varint_rest(b.skip(1), k + 1) {
            Some((v, n)) => Some(((b[0] - 128 + 128 * v) as nat, n + 1)),
            None => None,
        }
    }
}

/// The integer at the front of `b` and the number of bytes it takes.
pub open spec fn read_varint(b: Seq<u8>) -> Option<(nat, nat)> {
    varint_rest(b, 0)
}

/// `prost::encoding::encode_varint`: appends the variable length form of `value`.
#[verifier::external_body]
pub(crate) fn put_varint(buf: &mut Vec<u8>, value: u64)
    ensures
        final(buf)@ == old(buf)@ + varint(value as nat),
{
    prost::encoding::encode_varint(value, buf)
}

/// `prost::encoding::decode_varint`: the integer at the front of `bytes`, and the
/// bytes behind it. It fails where no integer of at most ten bytes and 64 bits
/// stands there.
#[verifier::external_body]
pub(crate) fn take_varint<'a>(bytes: &'a [u8]) -> (r: Result<(u64, &'a [u8]), prost::DecodeError>)
    ensures
        match r {
            Ok((v, rest)) => exists|n: nat|
                #![auto]
                read_varint(bytes@) == Some((v as nat, n)) && n <= bytes@.len() && rest@ == bytes@.skip(n as int),
            Err(_) => read_varint(bytes@) is None,
        },
{
    let mut rest = bytes;
    let value = prost::encoding::decode_varint(&mut rest)?;
    Ok((value, rest))
}

/// The number of bytes that `prost::encoding::skip_field` passes over to reach the
/// end of a group with this tag whose start has been read, if it finds the end.
pub uninterp spec fn group_len(tag: u32, bytes: Seq<u8>) -> Option<nat>;

/// `prost::encoding::skip_field` on a group: the bytes behind the end of the group.
#[verifier::external_body]
pub(crate) fn skip_group<'a>(tag: u32, bytes: &'a [u8]) -> (r: Result<&'a [u8], prost::DecodeError>)
    ensures
        match r {
            Ok(rest) => exists|n: nat|
                #![auto]
                group_len(tag, bytes@) == Some(n) && n <= bytes@.len() && rest@ == bytes@.skip(n as int),
            Err(_) => group_len(tag, bytes@) is None,
        },
{
    let mut rest = bytes;
    let ctx = prost::encoding::DecodeContext::default();
    prost::encoding::skip_field(prost::encoding::WireType::StartGroup, tag, &mut rest, ctx)?;
    Ok(rest)
}

/// A group of this tag, whose start has been read and whose end is its last field, inside
/// `depth` groups of tag 1, the start of the outermost of which has been read.
pub open spec fn in_groups(tag: u32, group: Seq<u8>, depth: nat) -> Seq<u8>
    decreases depth,
{
    if depth == 0 {
        group
    } else if depth == 1 {
        varint(tag as nat * 8 + 3) + group + varint(12)
    } else {
        varint(11) + in_groups(tag, group, (depth - 1) as nat) + varint(12)
    }
}

/// The number of bytes up to the end of a group of a message that stands inside `depth`
/// others. What a group may hold depends on how many groups and messages it stands in.
pub open spec fn nested_group_len(tag: u32, bytes: Seq<u8>, depth: nat) -> Option<nat> {
    match group_len(tag, bytes) {
        Some(n) => if depth == 0 || group_len(1, in_groups(tag, bytes.take(n as int), depth)) is Some {
            Some(n)
        } else {
            None
        },
        None => None,
    }
}

fn put_in_groups(tag: u32, group: &[u8], depth: u32) -> (r: Vec<u8>)
    ensures
        r@ == in_groups(tag, group@, depth as nat),
    decreases depth,
{
    let mut r: Vec<u8> = Vec::new();
    if depth == 0 {
        r.extend_from_slice(group);
        assert(r@ =~= group@);
    } else if depth == 1 {
        put_varint(&mut r, tag as u64 * 8 + 3);
        r.extend_from_slice(group);
        put_varint(&mut r, 12);
        assert(r@ =~= in_groups(tag, group@, depth as nat));
    } else {
        let inner = put_in_groups(tag, group, depth - 1);
        put_varint(&mut r, 11);
        r.extend_from_slice(inner.as_slice());
        put_varint(&mut r, 12);
        assert(r@ =~= in_groups(tag, group@, depth as nat));
    }
    r
}

/// Passes over a group of a message that stands inside `depth` others. `skip_group` counts
/// from the outermost message on, so the group is tried inside as many groups too.
fn pass_group<'a>(tag: u32, bytes: &'a [u8], depth: u32) -> (r: Option<&'a [u8]>)
    ensures
        match r {
            Some(rest) => exists|n: nat|
                #![auto]
                nested_group_len(tag, bytes@, depth as nat) == Some(n) && n <= bytes@.len() && rest@ == bytes@.skip(
                    n as int,
                ),
            None => nested_group_len(tag, bytes@, depth as nat) is None,
        },
{
    let rest = match skip_group(tag, bytes) {
        Ok(rest) => rest,
        Err(_) => {
            return None;
        },
    };
    let ghost n = group_len(tag, bytes@).unwrap();
    let len: usize = bytes.len() - rest.len();
    assert(len == n);
    if depth > 0 {
        let group = slice_subrange(bytes, 0, len);
        assert(group@ =~= bytes@.take(n as int));
        let nested = put_in_groups(tag, group, depth);
        if skip_group(1, nested.as_slice()).is_err() {
            return None;
        }
    }
    Some(rest)
}

/// What a field carries. `Other` stands for the kinds that no pprof field has.
pub enum Field {
    Varint(u64),
    Bytes(Seq<u8>),
    Other,
}

/// A field as read from a message.
pub enum RawField<'a> {
    Varint(u64),
    Bytes(&'a [u8]),
    Other,
}

impl<'a> View for RawField<'a> {
    type V = Field;

    open spec fn view(&self) -> Field {
        match self {
            RawField::Varint(v) => Field::Varint(*v),
            RawField::Bytes(b) => Field::Bytes(b@),
            RawField::Other => Field::Other,
        }
    }
}

/// A field's bytes: key, then value. Only what pprof messages hold is written.
pub open spec fn field_bytes(tag: nat, f: Field) -> Seq<u8> {
    match f {
        Field::Varint(v) => varint(tag * 8) + varint(v as nat),
        Field::Bytes(b) => varint(tag * 8 + 2) + (varint(b.len()) + b),
        Field::Other => Seq::empty(),
    }
}

/// The field at the front of `b`, which stands inside `depth` messages: its tag, what it
/// carries, and the number of bytes it takes. `None` where no well-formed field stands there.
pub open spec fn read_field(b: Seq<u8>, depth: nat) -> Option<(nat, Field, nat)> {
    match read_varint(b) {
        None => None,
        Some((key, n)) => {
            let tag = key / 8;
            let wire = key % 8;
            let rest = b.skip(n as int);
            if key > u32::MAX || tag == 0 {
                None
            } else if wire == 0 {
                match read_varint(rest) {
                    Some((v, m)) => Some((tag, Field::Varint(v as u64), n + m)),
                    None => None,
                }
            } else if wire == 1 {
                if rest.len() >= 8 {
                    Some((tag, Field::Other, n + 8))
                } else {
                    None
                }
            } else if wire == 2 {
                match read_varint(rest) {
                    Some((len, m)) => if m + len <= rest.len() {
                        Some((tag, Field::Bytes(rest.subrange(m as int, (m + len) as int)), n + m + len))
                    } else {
                        None
                    },
                    None => None,
                }
            } else if wire == 3 {
                match nested_group_len(tag as u32, rest, depth) {
                    Some(m) => Some((tag, Field::Other, n + m)),
                    None => None,
                }
            } else if wire == 5 {
                if rest.len() >= 4 {
                    Some((tag, Field::Other, n + 4))
                } else {
                    None
                }
            } else {
                None
            }
        },
    }
}

/// `m` after the fields of `b`, which stand inside `depth` messages, have been taken in one by
/// one with `step`. `None` where `b` is no list of fields or `step` refuses one.
pub open spec fn merged<M>(
    m: M,
    b: Seq<u8>,
    depth: nat,
    step: spec_fn(M, nat, Field) -> Option<M>,
) -> Option<M>
    decreases b.len(),
{
    if b.len() == 0 {
        Some(m)
    } else {
        match read_field(b, depth) {
            None => None,
            Some((tag, f, n)) => match step(m, tag, f) {
                Some(next) => if 0 < n <= b.len() {
                    merged(next, b.skip(n as int), depth, step)
                } else {
                    None
                },
                None => None,
            },
        }
    }
}

/// The varints that `b` is made of.
pub open spec fn read_varints(b: Seq<u8>) -> Option<Seq<u64>>
    decreases b.len(),
{
    if b.len() == 0 {
        Some(Seq::empty())
    } else {
        match read_varint(b) {
            Some((v, n)) => if 0 < n <= b.len() {
                match read_varints(b.skip(n as int)) {
                    Some(rest) => Some(seq![v as u64] + rest),
                    None => None,
                }
            } else {
                None
            },
            None => None,
        }
    }
}

/// The varints of `vs` one after another.
pub open spec fn varints(vs: Seq<u64>) -> Seq<u8>
    decreases vs.len(),
{
    if vs.len() == 0 {
        Seq::empty()
    } else {
        varints(vs.drop_last()) + varint(vs.last() as nat)
    }
}

/// A scalar field, left out where the value is zero.
pub open spec fn scalar_bytes(tag: nat, v: u64) -> Seq<u8> {
    if v == 0 {
        Seq::empty()
    } else {
        field_bytes(tag, Field::Varint(v))
    }
}

/// A packed list of scalars, left out where it is empty.
pub open spec fn packed_bytes(tag: nat, vs: Seq<u64>) -> Seq<u8> {
    if vs.len() == 0 {
        Seq::empty()
    } else {
        field_bytes(tag, Field::Bytes(varints(vs)))
    }
}

/// One field per entry.
pub open spec fn repeated_bytes(tag: nat, list: Seq<Seq<u8>>) -> Seq<u8>
    decreases list.len(),
{
    if list.len() == 0 {
        Seq::empty()
    } else {
        repeated_bytes(tag, list.drop_last()) + field_bytes(tag, Field::Bytes(list.last()))
    }
}

/// The first number that does not fit behind `k` bytes of a varint.
spec fn room(k: nat) -> nat
    decreases 9 - k,
{
    if k >= 9 {
        2
    } else {
        128 * room(k + 1)
    }
}

proof fn lemma_room()
    ensures
        room(0) == 0x1_0000_0000_0000_0000,
{
    reveal_with_fuel(room, 11);
}

proof fn lemma_varint_rest_bounds(b: Seq<u8>, k: nat)
    requires
        varint_rest(b, k) is Some,
    ensures
        0 < varint_rest(b, k).unwrap().1 <= b.len(),
        k <= 9,
        varint_rest(b, k).unwrap().0 < room(k),
    decreases 10 - k,
{
    if b[0] >= 128 {
        lemma_varint_rest_bounds(b.skip(1), k + 1);
    } else if k < 9 {
        lemma_room_large(k);
    }
}

proof fn lemma_room_large(k: nat)
    requires
        k < 9,
    ensures
        room(k) >= 256,
    decreases 9 - k,
{
    reveal_with_fuel(room, 2);
    if k < 8 {
        lemma_room_large(k + 1);
    }
}

/// What `read_varint` reads fits in 64 bits and in the bytes given.
pub proof fn lemma_read_varint_bounds(b: Seq<u8>)
    requires
        read_varint(b) is Some,
    ensures
        0 < read_varint(b).unwrap().1 <= b.len(),
        read_varint(b).unwrap().0 <= u64::MAX,
{
    lemma_room();
    lemma_varint_rest_bounds(b, 0);
}

proof fn lemma_varint_rest_of_varint(n: nat, rest: Seq<u8>, k: nat)
    requires
        k <= 9,
        n < room(k),
    ensures
        varint_rest(varint(n) + rest, k) == Some((n, varint(n).len())),
        0 < varint(n).len(),
    decreases n,
{
    let b = varint(n) + rest;
    if n < 128 {
        assert(b[0] == n as u8);
    } else {
        assert(k < 9);
        lemma_varint_rest_of_varint(n / 128, rest, k + 1);
        assert(b[0] == (n % 128 + 128) as u8);
        assert(b.skip(1) =~= varint(n / 128) + rest);
    }
}

/// Reading what was written gives back the number, and takes exactly its bytes.
pub proof fn law_varint_round_trip(n: u64, rest: Seq<u8>)
    ensures
        read_varint(varint(n as nat) + rest) == Some((n as nat, varint(n as nat).len())),
        0 < varint(n as nat).len(),
{
    lemma_room();
    lemma_varint_rest_of_varint(n as nat, rest, 0);
}

/// A field that pprof messages hold, with a tag they use and a length that fits.
pub open spec fn writable(tag: nat, f: Field) -> bool {
    &&& 0 < tag < 16
    &&& match f {
        Field::Varint(_) => true,
        Field::Bytes(b) => b.len() <= u64::MAX,
        Field::Other => false,
    }
}

/// Reading a written field gives back its tag and what it carries.
pub proof fn law_field_round_trip(tag: nat, f: Field, rest: Seq<u8>, depth: nat)
    requires
        writable(tag, f),
    ensures
        read_field(field_bytes(tag, f) + rest, depth) == Some((tag, f, field_bytes(tag, f).len())),
        0 < field_bytes(tag, f).len(),
{
    let b = field_bytes(tag, f) + rest;
    match f {
        Field::Varint(v) => {
            let key = (tag * 8) as u64;
            law_varint_round_trip(key, varint(v as nat) + rest);
            assert(b =~= varint(tag * 8) + (varint(v as nat) + rest));
            law_varint_round_trip(v, rest);
            assert(b.skip(varint(tag * 8).len() as int) =~= varint(v as nat) + rest);
        },
        Field::Bytes(s) => {
            let key = (tag * 8 + 2) as u64;
            let after_key = varint(s.len()) + (s + rest);
            law_varint_round_trip(key, after_key);
            assert(b =~= varint(tag * 8 + 2) + after_key);
            law_varint_round_trip(s.len() as u64, s + rest);
            assert(b.skip(varint(tag * 8 + 2).len() as int) =~= after_key);
            let m = varint(s.len()).len() as int;
            assert(after_key.subrange(m, m + s.len()) =~= s);
        },
        Field::Other => {},
    }
}

/// Taking in a written field, then what follows it.
pub proof fn lemma_merge_field<M>(
    m: M,
    tag: nat,
    f: Field,
    rest: Seq<u8>,
    depth: nat,
    step: spec_fn(M, nat, Field) -> Option<M>,
)
    requires
        writable(tag, f),
    ensures
        merged(m, field_bytes(tag, f) + rest, depth, step) == match step(m, tag, f) {
            Some(next) => merged(next, rest, depth, step),
            None => None,
        },
{
    law_field_round_trip(tag, f, rest, depth);
    let b = field_bytes(tag, f) + rest;
    assert(b.skip(field_bytes(tag, f).len() as int) =~= rest);
}

/// Taking in one field per entry of `list`, where `states` lists the values that
/// the message goes through.
pub proof fn lemma_merge_repeated<M>(
    states: Seq<M>,
    tag: nat,
    list: Seq<Seq<u8>>,
    rest: Seq<u8>,
    depth: nat,
    step: spec_fn(M, nat, Field) -> Option<M>,
)
    requires
        states.len() == list.len() + 1,
        forall|i: int|
            0 <= i < list.len() ==> writable(tag, Field::Bytes(#[trigger] list[i])) && step(
                states[i],
                tag,
                Field::Bytes(list[i]),
            ) == Some(states[i + 1]),
    ensures
        merged(states[0], repeated_bytes(tag, list) + rest, depth, step) == merged(states.last(), rest, depth, step),
    decreases list.len(),
{
    if list.len() == 0 {
        assert(repeated_bytes(tag, list) + rest =~= rest);
    } else {
        let n = list.len() - 1;
        let last = field_bytes(tag, Field::Bytes(list[n]));
        assert(repeated_bytes(tag, list) + rest =~= repeated_bytes(tag, list.drop_last()) + (last + rest));
        assert forall|i: int| 0 <= i < list.drop_last().len() implies writable(
            tag,
            Field::Bytes(#[trigger] list.drop_last()[i]),
        ) && step(states.drop_last()[i], tag, Field::Bytes(list.drop_last()[i])) == Some(
            states.drop_last()[i + 1],
        ) by {
            assert(writable(tag, Field::Bytes(list[i])));
        }
        lemma_merge_repeated(states.drop_last(), tag, list.drop_last(), last + rest, depth, step);
        assert(writable(tag, Field::Bytes(list[n])));
        lemma_merge_field(states[n], tag, Field::Bytes(list[n]), rest, depth, step);
    }
}

proof fn lemma_read_varints_more(vs: Seq<u64>, rest: Seq<u8>)
    ensures
        read_varints(varints(vs) + rest) == match read_varints(rest) {
            Some(more) => Some(vs + more),
            None => None,
        },
    decreases vs.len(),
{
    if vs.len() == 0 {
        assert(varints(vs) + rest =~= rest);
        if read_varints(rest) is Some {
            assert(vs + read_varints(rest).unwrap() =~= read_varints(rest).unwrap());
        }
    } else {
        let one = varint(vs.last() as nat);
        assert(varints(vs) + rest =~= varints(vs.drop_last()) + (one + rest));
        lemma_read_varints_more(vs.drop_last(), one + rest);
        law_varint_round_trip(vs.last(), rest);
        assert((one + rest).skip(one.len() as int) =~= rest);
        if read_varints(rest) is Some {
            let more = read_varints(rest).unwrap();
            assert(vs.drop_last() + (seq![vs.last()] + more) =~= vs + more);
        }
    }
}

/// Reading a written list of integers gives the list back.
pub proof fn law_varints_round_trip(vs: Seq<u64>)
    ensures
        read_varints(varints(vs)) == Some(vs),
{
    lemma_read_varints_more(vs, Seq::empty());
    assert(varints(vs) + Seq::<u8>::empty() =~= varints(vs));
    assert(vs + Seq::<u64>::empty() =~= vs);
}

/// Appends a field with an integer, unless the integer is zero.
pub(crate) fn put_scalar(buf: &mut Vec<u8>, tag: u32, v: u64)
    requires
        0 < tag < 16,
    ensures
        final(buf)@ == old(buf)@ + scalar_bytes(tag as nat, v),
{
    if v != 0 {
        put_varint(buf, (tag * 8) as u64);
        put_varint(buf, v);
    }
    assert(buf@ =~= old(buf)@ + scalar_bytes(tag as nat, v));
}

/// Appends a field with bytes.
pub(crate) fn put_bytes(buf: &mut Vec<u8>, tag: u32, b: &[u8])
    requires
        0 < tag < 16,
    ensures
        final(buf)@ == old(buf)@ + field_bytes(tag as nat, Field::Bytes(b@)),
{
    put_varint(buf, (tag * 8 + 2) as u64);
    put_varint(buf, b.len() as u64);
    buf.extend_from_slice(b);
    assert(buf@ =~= old(buf)@ + field_bytes(tag as nat, Field::Bytes(b@)));
}

/// Appends a packed list of integers, unless it is empty.
pub(crate) fn put_packed(buf: &mut Vec<u8>, tag: u32, vs: &[u64])
    requires
        0 < tag < 16,
    ensures
        final(buf)@ == old(buf)@ + packed_bytes(tag as nat, vs@),
{
    if vs.len() == 0 {
        assert(buf@ =~= old(buf)@ + packed_bytes(tag as nat, vs@));
        return;
    }
    let mut inner: Vec<u8> = Vec::new();
    for i in 0..vs.len()
        invariant
            inner@ == varints(vs@.take(i as int)),
    {
        put_varint(&mut inner, vs[i]);
        assert(vs@.take(i + 1).drop_last() =~= vs@.take(i as int));
    }
    assert(vs@.take(vs@.len() as int) =~= vs@);
    put_bytes(buf, tag, inner.as_slice());
}

/// The field at the front of `b`, with its tag, and the bytes behind it.
pub(crate) fn take_field<'a>(b: &'a [u8], depth: u32) -> (r: Option<(u32, RawField<'a>, &'a [u8])>)
    ensures
        match r {
            Some((tag, f, rest)) => exists|n: nat|
                #![auto]
                read_field(b@, depth as nat) == Some((tag as nat, f@, n)) && 0 < n <= b@.len() && rest@ == b@.skip(n as int),
            None => read_field(b@, depth as nat) is None,
        },
{
    let (key, rest) = match take_varint(b) {
        Ok(p) => p,
        Err(_) => {
            return None;
        },
    };
    proof {
        lemma_read_varint_bounds(b@);
    }
    let ghost n = read_varint(b@).unwrap().1;
    if key > 0xffff_ffff || key / 8 == 0 {
        return None;
    }
    let tag: u32 = (key / 8) as u32;
    let wire: u64 = key % 8;
    if wire == 0 {
        match take_varint(rest) {
            Ok((v, after)) => {
                proof {
                    let m = read_varint(rest@).unwrap().1;
                    assert(rest@.skip(m as int) =~= b@.skip((n + m) as int));
                }
                Some((tag, RawField::Varint(v), after))
            },
            Err(_) => None,
        }
    } else if wire == 1 {
        if rest.len() < 8 {
            return None;
        }
        assert(rest@.skip(8) =~= b@.skip((n + 8) as int));
        Some((tag, RawField::Other, slice_subrange(rest, 8, rest.len())))
    } else if wire == 2 {
        match take_varint(rest) {
            Ok((len, after)) => {
                proof {
                    lemma_read_varint_bounds(rest@);
                }
                let ghost m = read_varint(rest@).unwrap().1;
                if len > after.len() as u64 {
                    return None;
                }
                let cut: usize = len as usize;
                assert(after@.subrange(0, len as int) =~= rest@.subrange(m as int, (m + len) as int));
                assert(after@.skip(len as int) =~= b@.skip((n + m + len) as int));
                Some(
                    (
                        tag,
                        RawField::Bytes(slice_subrange(after, 0, cut)),
                        slice_subrange(after, cut, after.len()),
                    ),
                )
            },
            Err(_) => None,
        }
    } else if wire == 3 {
        match pass_group(tag, rest, depth) {
            Some(after) => {
                proof {
                    let m = group_len(tag, rest@).unwrap();
                    assert(rest@.skip(m as int) =~= b@.skip((n + m) as int));
                }
                Some((tag, RawField::Other, after))
            },
            None => None,
        }
    } else if wire == 5 {
        if rest.len() < 4 {
            return None;
        }
        assert(rest@.skip(4) =~= b@.skip((n + 4) as int));
        Some((tag, RawField::Other, slice_subrange(rest, 4, rest.len())))
    } else {
        None
    }
}

/// The integers that `b` is made of.
pub(crate) fn take_varints(b: &[u8]) -> (r: Option<Vec<u64>>)
    ensures
        match r {
            Some(vs) => read_varints(b@) == Some(vs@),
            None => read_varints(b@) is None,
        },
{
    let mut out: Vec<u64> = Vec::new();
    let mut rest: &[u8] = b;
    while rest.len() > 0
        invariant
            read_varints(b@) == match read_varints(rest@) {
                Some(more) => Some(out@ + more),
                None => None,
            },
        decreases rest@.len(),
    {
        match take_varint(rest) {
            Ok((v, after)) => {
                proof {
                    lemma_read_varint_bounds(rest@);
                    if read_varints(after@) is Some {
                        let more = read_varints(after@).unwrap();
                        assert(out@ + (seq![v] + more) =~= out@.push(v) + more);
                    }
                }
                out.push(v);
                rest = after;
            },
            Err(_) => {
                return None;
            },
        }
    }
    assert(out@ + Seq::<u64>::empty() =~= out@);
    Some(out)
}

} // verus!

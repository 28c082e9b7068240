//! How the records of a stream of native allocations are laid out.
use vstd::prelude::*;
use vstd::utf8::{encode_utf8, encode_utf8_decode_utf8, encode_utf8_valid_utf8};
use crate::native::{le_value, names_in, records_in, AllocationView};

verus! {

/// A number in `k` bytes, the lowest first.
pub open spec fn le_bytes(n: nat, k: nat) -> Seq<u8>
    decreases k,
{
    if k == 0 {
        Seq::empty()
    } else {
        seq![(n % 256) as u8] + le_bytes(n / 256, (k - 1) as nat)
    }
}

/// A name: the number of its bytes in two of them, and its text.
pub open spec fn name_bytes(name: Seq<char>) -> Seq<u8> {
    le_bytes(encode_utf8(name).len(), 2) + encode_utf8(name)
}

/// Names one behind the other.
pub open spec fn names_bytes(names: Seq<Seq<char>>) -> Seq<u8>
    decreases names.len(),
{
    if names.len() == 0 {
        Seq::empty()
    } else {
        names_bytes(names.drop_last()) + name_bytes(names.last())
    }
}

/// A record: the size in eight bytes, the number of frames in one, and the names of the
/// frames.
pub open spec fn record_bytes(size: u64, names: Seq<Seq<char>>) -> Seq<u8> {
    le_bytes(size as nat, 8) + seq![names.len() as u8] + names_bytes(names)
}

proof fn lemma_two(n: nat)
    requires
        n < 0x1_0000,
    ensures
        le_bytes(n, 2).len() == 2,
        le_value(le_bytes(n, 2)) == n,
{
    reveal_with_fuel(le_bytes, 3);
    let b = le_bytes(n, 2);
    assert(b =~= seq![(n % 256) as u8, (n / 256 % 256) as u8]);
    lemma_front(b);
    lemma_front(b.drop_first());
    assert(b.drop_first().drop_first() =~= Seq::empty());
}

proof fn lemma_front(b: Seq<u8>)
    requires
        b.len() > 0,
    ensures
        le_value(b) == b[0] as nat + 256 * le_value(b.drop_first()),
{
}

proof fn lemma_bytes(n: nat, k: nat)
    ensures
        le_bytes(n, k).len() == k,
        le_value(le_bytes(n, k)) == n % vstd::arithmetic::power::pow(256, k) as nat,
    decreases k,
{
    vstd::arithmetic::power::lemma_pow_positive(256, k);
    if k == 0 {
        vstd::arithmetic::power::lemma_pow0(256);
        assert(n % 1 == 0);
    } else {
        let m = (k - 1) as nat;
        let p = vstd::arithmetic::power::pow(256, m);
        let b = le_bytes(n, k);
        lemma_bytes(n / 256, m);
        assert(b.drop_first() =~= le_bytes(n / 256, m));
        vstd::arithmetic::power::lemma_pow_positive(256, m);
        vstd::arithmetic::power::lemma_pow_adds(256, 1, m);
        vstd::arithmetic::power::lemma_pow1(256);
        vstd::arithmetic::div_mod::lemma_breakdown(n as int, 256, p);
    }
}

pub(crate) proof fn lemma_four(n: u32)
    ensures
        le_bytes(n as nat, 4).len() == 4,
        le_value(le_bytes(n as nat, 4)) == n,
{
    lemma_bytes(n as nat, 4);
    assert(vstd::arithmetic::power::pow(256, 4) == 0x1_0000_0000) by {
        reveal_with_fuel(vstd::arithmetic::power::pow, 5);
    }
    vstd::arithmetic::div_mod::lemma_small_mod(n as nat, 0x1_0000_0000);
}

proof fn lemma_eight(n: u64)
    ensures
        le_bytes(n as nat, 8).len() == 8,
        le_value(le_bytes(n as nat, 8)) == n,
{
    lemma_bytes(n as nat, 8);
    assert(vstd::arithmetic::power::pow(256, 8) == 0x1_0000_0000_0000_0000) by {
        reveal_with_fuel(vstd::arithmetic::power::pow, 9);
    }
    vstd::arithmetic::div_mod::lemma_small_mod(n as nat, 0x1_0000_0000_0000_0000);
}

proof fn lemma_names(names: Seq<Seq<char>>, rest: Seq<u8>)
    requires
        forall|i: int| 0 <= i < names.len() ==> encode_utf8(#[trigger] names[i]).len() < 0x1_0000,
    ensures
        names_in(names_bytes(names) + rest, names.len()) == Some((names, names_bytes(names).len())),
    decreases names.len(),
{
    let b = names_bytes(names) + rest;
    if names.len() == 0 {
        assert(names =~= Seq::empty());
    } else {
        let front = names.drop_last();
        let last = names.last();
        let text = encode_utf8(last);
        assert forall|i: int| 0 <= i < front.len() implies encode_utf8(#[trigger] front[i]).len() < 0x1_0000 by {
            assert(encode_utf8(names[i]).len() < 0x1_0000);
        }
        assert(encode_utf8(names[names.len() - 1]).len() < 0x1_0000);
        lemma_names(front, name_bytes(last) + rest);
        assert(b =~= names_bytes(front) + (name_bytes(last) + rest));
        let p = names_bytes(front).len() as int;
        lemma_two(text.len());
        assert(b.subrange(p, p + 2) =~= le_bytes(text.len(), 2));
        assert(b.subrange(p + 2, p + 2 + text.len()) =~= text);
        encode_utf8_valid_utf8(last);
        encode_utf8_decode_utf8(last);
        assert(front.push(last) =~= names);
    }
}

/// A record at the start of a stream is read as it was laid out, and then the rest is.
pub proof fn law_record_read(size: u64, names: Seq<Seq<char>>, rest: Seq<u8>)
    requires
        names.len() <= 255,
        forall|i: int| 0 <= i < names.len() ==> encode_utf8(#[trigger] names[i]).len() < 0x1_0000,
    ensures
        records_in(record_bytes(size, names) + rest) == seq![AllocationView { size, frames: names }] + records_in(rest),
{
    let b = record_bytes(size, names) + rest;
    lemma_eight(size);
    lemma_names(names, rest);
    assert(b.take(8) =~= le_bytes(size as nat, 8));
    assert(b[8] == names.len() as u8);
    assert(b.skip(9) =~= names_bytes(names) + rest);
    let p = 9 + names_bytes(names).len();
    assert(b.skip(p as int) =~= rest);
}

} // verus!

//! The allocations of a native binary, as its hook writes them down.
use vstd::prelude::*;
use vstd::string::StringExecFns;
use vstd::utf8::{decode_utf8, valid_utf8};
use crate::alloc_profile::{
    alloc_encoded, alloc_profile, encode_alloc_profile, lemma_unscaled_fits, scale_values,
    scaled_fits, scaled_values, AllocError,
};
use crate::demangle::{demangle, demangled};
use crate::frames::{named_stack, named_stacks, NamedFrame, NamedFrameView, TextTally};
use crate::pool::law_entered;
use crate::proto::texts;
use crate::tally::{first_seen, lemma_first_seen};
use crate::text::{chars_of, same_chars, strip_leading};

verus! {

/// An unsigned number of `b.len()` bytes, the lowest first.
pub open spec fn le_value(b: Seq<u8>) -> nat
    decreases b.len(),
{
    if b.len() == 0 {
        0
    } else {
        b[0] as nat + 256 * le_value(b.drop_first())
    }
}

/// The text of a name. Bytes that are no text give a fixed one.
pub open spec fn name_text(b: Seq<u8>) -> Seq<char> {
    if valid_utf8(b) {
        decode_utf8(b)
    } else {
        "<bad utf8>"@
    }
}

/// The first `n` names in `b`, each behind its length in two bytes, and how many bytes they
/// take. `None` stands for bytes that end too early.
pub open spec fn names_in(b: Seq<u8>, n: nat) -> Option<(Seq<Seq<char>>, nat)>
    decreases n,
{
    if n == 0 {
        Some((Seq::empty(), 0))
    } else {
        match names_in(b, (n - 1) as nat) {
            None => None,
            Some((names, p)) => if p + 2 > b.len() {
                None
            } else {
                let len = le_value(b.subrange(p as int, p as int + 2));
                if p + 2 + len > b.len() {
                    None
                } else {
                    Some((names.push(name_text(b.subrange(p as int + 2, p as int + 2 + len))), p + 2 + len))
                }
            },
        }
    }
}

/// A recorded allocation.
#[verifier::ext_equal]
pub struct AllocationView {
    pub size: u64,
    /// Innermost first.
    pub frames: Seq<Seq<char>>,
}

/// The first record in `b`, and how many bytes it takes: a size in eight bytes, the number
/// of frames in one, and the names of the frames.
pub open spec fn record_in(b: Seq<u8>) -> Option<(AllocationView, nat)> {
    if b.len() < 9 {
        None
    } else {
        match names_in(b.skip(9), b[8] as nat) {
            Some((frames, p)) => Some(
                (AllocationView { size: le_value(b.take(8)) as u64, frames }, 9 + p),
            ),
            None => None,
        }
    }
}

/// The records of a stream, up to where it breaks off.
pub open spec fn records_in(b: Seq<u8>) -> Seq<AllocationView>
    decreases b.len(),
{
    match record_in(b) {
        Some((r, p)) => if p > 0 {
            seq![r] + records_in(b.skip(p as int))
        } else {
            Seq::empty()
        },
        None => Seq::empty(),
    }
}

/// Whether a text starts with another.
pub open spec fn starts(s: Seq<char>, head: Seq<char>) -> bool {
    head.len() <= s.len() && s.take(head.len() as int) == head
}

/// Whether a frame belongs to the allocator or to the hook.
pub open spec fn is_internal(name: Seq<char>) -> bool {
    let n = strip_leading(name, '_');
    ||| n == "malloc"@
    ||| n == "calloc"@
    ||| n == "realloc"@
    ||| starts(n, "moonbit_malloc"@)
    ||| starts(n, "moonbit_realloc"@)
    ||| starts(n, "moonbit_make_"@)
    ||| starts(n, "mi_"@)
    ||| starts(n, "moon_pprof_"@)
    ||| n == "mpprof_init"@
    ||| n == "mpprof_fini"@
}

/// A stack from the first frame that is the program's own.
pub open spec fn user_frames(frames: Seq<Seq<char>>) -> Seq<Seq<char>>
    decreases frames.len(),
{
    if frames.len() > 0 && is_internal(frames[0]) {
        user_frames(frames.drop_first())
    } else {
        frames
    }
}

/// The stacks that a profile counts: those with a frame of the program's own.
pub open spec fn user_stacks(r: Seq<AllocationView>) -> Seq<Seq<Seq<char>>>
    decreases r.len(),
{
    if r.len() == 0 {
        Seq::empty()
    } else {
        let front = user_stacks(r.drop_last());
        let frames = user_frames(r.last().frames);
        if frames.len() == 0 {
            front
        } else {
            front.push(frames)
        }
    }
}

/// The sizes that go with them.
pub open spec fn user_sizes(r: Seq<AllocationView>) -> Seq<i64>
    decreases r.len(),
{
    if r.len() == 0 {
        Seq::empty()
    } else {
        let front = user_sizes(r.drop_last());
        if user_frames(r.last().frames).len() == 0 {
            front
        } else {
            front.push(#[verifier::truncate] (r.last().size as i64))
        }
    }
}

/// A frame as it is entered in the tables. The name shown tells it apart.
pub open spec fn native_frame(raw: Seq<char>, no_demangle: bool) -> NamedFrameView {
    let shown = if no_demangle {
        raw
    } else {
        demangled(raw)
    };
    NamedFrameView { key: shown, name: shown, system_name: raw }
}

pub open spec fn native_frames(s: Seq<Seq<char>>, no_demangle: bool) -> Seq<NamedFrameView> {
    Seq::new(s.len(), |i: int| native_frame(s[i], no_demangle))
}

/// The distinct stacks in the order in which they first came.
pub open spec fn native_stacks(s: Seq<Seq<Seq<char>>>, no_demangle: bool) -> Seq<Seq<NamedFrameView>> {
    let keys = first_seen(s);
    Seq::new(keys.len(), |i: int| native_frames(keys[i], no_demangle))
}

/// The names of functions that are to be passed over.
pub open spec fn allocator_frames() -> Seq<char> {
    "^_*(?:malloc|calloc|realloc|moonbit_malloc.*|moonbit_realloc.*|moonbit_make_.*|mi_.*|moon_pprof_.*|mpprof_.*)$"@
}

/// Whether a frame belongs to the allocator or to the hook.
pub fn is_internal_frame(name: &str) -> (r: bool)
    ensures
        r == is_internal(name@),
{
    let all = chars_of(name);
    let mut i: usize = 0;
    assert(all@.skip(0) =~= all@);
    while i < all.len() && all[i] == '_'
        invariant
            i <= all@.len(),
            strip_leading(all@, '_') == strip_leading(all@.skip(i as int), '_'),
        decreases all@.len() - i,
    {
        assert(all@.skip(i as int)[0] == '_');
        assert(all@.skip(i as int).drop_first() =~= all@.skip(i + 1));
        i += 1;
    }
    let n = vstd::slice::slice_subrange(all.as_slice(), i, all.len());
    proof {
        assert(n@ =~= all@.skip(i as int));
        if n@.len() > 0 {
            assert(n@[0] == all@[i as int]);
        }
        assert(n@ == strip_leading(name@, '_'));
    }
    same(n, "malloc") || same(n, "calloc") || same(n, "realloc") || begins(n, "moonbit_malloc") || begins(
        n,
        "moonbit_realloc",
    ) || begins(n, "moonbit_make_") || begins(n, "mi_") || begins(n, "moon_pprof_") || same(n, "mpprof_init") || same(
        n,
        "mpprof_fini",
    )
}

fn same(a: &[char], text: &str) -> (r: bool)
    ensures
        r == (a@ == text@),
{
    let b = chars_of(text);
    same_chars(a, b.as_slice())
}

/// Whether a text starts with another.
pub(crate) fn begins(a: &[char], head: &str) -> (r: bool)
    ensures
        r == starts(a@, head@),
{
    let b = chars_of(head);
    if b.len() > a.len() {
        return false;
    }
    let front = vstd::slice::slice_subrange(a, 0, b.len());
    assert(front@ =~= a@.take(b@.len() as int));
    same_chars(front, b.as_slice())
}

fn read_le(buf: &[u8], at: usize, n: usize) -> (r: u64)
    requires
        n <= 8,
        at + n <= buf@.len(),
    ensures
        r == le_value(buf@.subrange(at as int, at + n)),
{
    let all: usize = buf.len();
    let mut value: u64 = 0;
    let mut i: usize = n;
    assert(buf@.subrange(at + n, at + n) =~= Seq::empty());
    proof {
        lemma_le_bound(buf@.subrange(at + n, at + n));
    }
    while i > 0
        invariant
            i <= n <= 8,
            at + n <= all,
            all == buf@.len(),
            value == le_value(buf@.subrange(at + i, at + n)),
        decreases i,
    {
        let ghost rest = buf@.subrange(at + i, at + n);
        let ghost more = buf@.subrange(at + i - 1, at + n);
        proof {
            lemma_le_bound(rest);
            lemma_powers((n - i) as nat);
            assert(more.drop_first() =~= rest);
            assert(more[0] == buf@[at + i - 1]);
        }
        value = value * 256 + buf[at + i - 1] as u64;
        i -= 1;
    }
    value
}

spec fn power256(n: nat) -> nat
    decreases n,
{
    if n == 0 {
        1
    } else {
        256 * power256((n - 1) as nat)
    }
}

proof fn lemma_le_bound(b: Seq<u8>)
    ensures
        le_value(b) < power256(b.len()),
    decreases b.len(),
{
    if b.len() > 0 {
        lemma_le_bound(b.drop_first());
    }
}

proof fn lemma_powers(n: nat)
    ensures
        n <= 7 ==> power256(n) * 256 <= 0x1_0000_0000_0000_0000,
{
    reveal_with_fuel(power256, 9);
}

/// The text of a name.
fn read_name(bytes: Vec<u8>) -> (r: String)
    ensures
        r@ == name_text(bytes@),
{
    match String::from_utf8(bytes) {
        Ok(s) => s,
        Err(_) => "<bad utf8>".to_owned(),
    }
}

fn copy_range(buf: &[u8], from: usize, to: usize) -> (r: Vec<u8>)
    requires
        from <= to <= buf@.len(),
    ensures
        r@ == buf@.subrange(from as int, to as int),
{
    let mut r: Vec<u8> = Vec::new();
    let part = vstd::slice::slice_subrange(buf, from, to);
    r.extend_from_slice(part);
    assert(r@ =~= buf@.subrange(from as int, to as int));
    r
}

/// Reads the names of a stack, and gives the position behind them.
fn read_frames(buf: &[u8], at: usize, n: usize) -> (r: Option<(Vec<String>, usize)>)
    requires
        at <= buf@.len(),
    ensures
        match r {
            Some((frames, end)) => at <= end <= buf@.len() && names_in(buf@.skip(at as int), n as nat) == Some(
                (texts(frames@), (end - at) as nat),
            ),
            None => names_in(buf@.skip(at as int), n as nat) is None,
        },
{
    let ghost b = buf@.skip(at as int);
    let mut frames: Vec<String> = Vec::new();
    let mut p: usize = at;
    assert(texts(frames@) =~= Seq::<Seq<char>>::empty());
    for i in 0..n
        invariant
            at <= p <= buf@.len(),
            b == buf@.skip(at as int),
            names_in(b, i as nat) == Some((texts(frames@), (p - at) as nat)),
    {
        let ghost before = frames@;
        if buf.len() - p < 2 {
            proof {
                lemma_names_stop(b, (i + 1) as nat, n as nat);
            }
            return None;
        }
        let len: usize = read_le(buf, p, 2) as usize;
        proof {
            assert(b.subrange(p - at, p - at + 2) =~= buf@.subrange(p as int, p + 2));
            lemma_le_bound(buf@.subrange(p as int, p + 2));
            reveal_with_fuel(power256, 3);
        }
        if buf.len() - p - 2 < len {
            proof {
                lemma_names_stop(b, (i + 1) as nat, n as nat);
            }
            return None;
        }
        let name = read_name(copy_range(buf, p + 2, p + 2 + len));
        proof {
            assert(b.subrange(p - at + 2, p - at + 2 + len) =~= buf@.subrange(p + 2, p + 2 + len));
        }
        frames.push(name);
        assert(texts(frames@) =~= texts(before).push(name@));
        p = p + 2 + len;
    }
    Some((frames, p))
}

proof fn lemma_names_stop(b: Seq<u8>, k: nat, n: nat)
    requires
        k <= n,
        names_in(b, k) is None,
    ensures
        names_in(b, n) is None,
    decreases n,
{
    if k < n {
        lemma_names_stop(b, k, (n - 1) as nat);
    }
}

/// A recorded allocation.
#[derive(Debug)]
pub struct Allocation {
    pub size: u64,
    /// Innermost first.
    pub frames: Vec<String>,
}

impl View for Allocation {
    type V = AllocationView;

    open spec fn view(&self) -> AllocationView {
        AllocationView { size: self.size, frames: texts(self.frames@) }
    }
}

pub open spec fn allocation_views(s: Seq<Allocation>) -> Seq<AllocationView> {
    Seq::new(s.len(), |i: int| s[i]@)
}

/// The records of a stream, up to where it breaks off.
pub fn parse_raw_stream(buf: &[u8]) -> (r: Vec<Allocation>)
    ensures
        allocation_views(r@) == records_in(buf@),
{
    let mut r: Vec<Allocation> = Vec::new();
    let mut p: usize = 0;
    assert(buf@.skip(0) =~= buf@);
    assert(allocation_views(r@) + records_in(buf@.skip(0)) =~= records_in(buf@));
    while buf.len() - p >= 9
        invariant
            p <= buf@.len(),
            records_in(buf@) == allocation_views(r@) + records_in(buf@.skip(p as int)),
        decreases buf@.len() - p,
    {
        let ghost b = buf@.skip(p as int);
        let ghost before = allocation_views(r@);
        let size: u64 = read_le(buf, p, 8);
        let n: usize = buf[p + 8] as usize;
        proof {
            assert(b.take(8) =~= buf@.subrange(p as int, p + 8));
            assert(b[8] == buf@[p + 8]);
            assert(b.skip(9) =~= buf@.skip(p + 9));
        }
        match read_frames(buf, p + 9, n) {
            None => {
                assert(record_in(b) is None);
                assert(before + records_in(b) =~= before);
                return r;
            },
            Some((frames, end)) => {
                let a = Allocation { size, frames };
                let ghost av = a@;
                r.push(a);
                proof {
                    assert(record_in(b) == Some((av, (end - p) as nat)));
                    assert(b.skip(end - p) =~= buf@.skip(end as int));
                    assert(allocation_views(r@) =~= before.push(av));
                    assert(before + (seq![av] + records_in(buf@.skip(end as int))) =~= before.push(av) + records_in(
                        buf@.skip(end as int),
                    ));
                }
                p = end;
            },
        }
    }
    proof {
        let b = buf@.skip(p as int);
        assert(record_in(b) is None);
        assert(allocation_views(r@) + records_in(b) =~= allocation_views(r@));
    }
    r
}

/// A stack from the first frame that is the program's own.
fn strip_internal(frames: &Vec<String>) -> (r: Vec<String>)
    ensures
        texts(r@) == user_frames(texts(frames@)),
{
    let ghost all = texts(frames@);
    let mut i: usize = 0;
    assert(all.skip(0) =~= all);
    while i < frames.len() && is_internal_frame(frames[i].as_str())
        invariant
            i <= frames@.len(),
            all == texts(frames@),
            user_frames(all) == user_frames(all.skip(i as int)),
        decreases frames@.len() - i,
    {
        assert(all.skip(i as int)[0] == frames@[i as int]@);
        assert(all.skip(i as int).drop_first() =~= all.skip(i + 1));
        i += 1;
    }
    proof {
        if i < frames@.len() {
            assert(all.skip(i as int)[0] == frames@[i as int]@);
        }
        assert(user_frames(all) == all.skip(i as int));
    }
    let mut r: Vec<String> = Vec::new();
    let start: usize = i;
    for j in start..frames.len()
        invariant
            start <= j,
            start <= frames@.len(),
            all == texts(frames@),
            r@.len() == j - start,
            forall|k: int| 0 <= k < r@.len() ==> (#[trigger] r@[k])@ == all[start + k],
    {
        r.push(frames[j].clone());
    }
    assert(texts(r@) =~= all.skip(start as int));
    r
}

fn name_frames(frames: &Vec<String>, no_demangle: bool) -> (r: Vec<NamedFrame>)
    ensures
        named_stack(r@) == native_frames(texts(frames@), no_demangle),
{
    let mut r: Vec<NamedFrame> = Vec::new();
    for i in 0..frames.len()
        invariant
            r@.len() == i,
            forall|k: int| 0 <= k < i ==> (#[trigger] r@[k])@ == native_frame(frames@[k]@, no_demangle),
    {
        let raw = frames[i].clone();
        let name: String = if no_demangle {
            raw.clone()
        } else {
            demangle(raw.as_str())
        };
        r.push(NamedFrame { key: name.clone(), name, system_name: raw });
    }
    assert(named_stack(r@) =~= native_frames(texts(frames@), no_demangle));
    r
}

/// The profile of recorded allocations. Each one stands for `sample_rate` of them.
pub fn encode_pprof(records: &Vec<Allocation>, sample_rate: u32, no_demangle: bool) -> (r: Result<Vec<u8>, AllocError>)
    ensures
        native_encoded(allocation_views(records@), sample_rate, no_demangle, r),
{
    let ghost v = allocation_views(records@);
    let rate: u32 = if sample_rate == 0 {
        1
    } else {
        sample_rate
    };
    let n: usize = records.len();
    let mut tally = TextTally::new();
    let mut named: Vec<Vec<NamedFrame>> = Vec::new();
    assert(named_stacks(named@) =~= native_stacks(tally.seen(), no_demangle));
    for i in 0..n
        invariant
            n == records@.len(),
            v == allocation_views(records@),
            tally.wf(),
            tally.seen() == user_stacks(v.take(i as int)),
            tally.weights() == user_sizes(v.take(i as int)),
            tally.seen().len() <= i,
            named_stacks(named@) == native_stacks(tally.seen(), no_demangle),
    {
        let ghost before = tally.seen();
        let ghost done = named@;
        proof {
            assert(v.take(i + 1).drop_last() =~= v.take(i as int));
            assert(v.take(i + 1).last() == records@[i as int]@);
            lemma_first_seen(before);
        }
        let frames = strip_internal(&records[i].frames);
        if frames.len() > 0 {
            let ghost f = texts(frames@);
            let new: bool = tally.add(&frames, #[verifier::truncate] (records[i].size as i64));
            proof {
                assert(before.push(f).drop_last() =~= before);
                law_entered(first_seen(before), f);
            }
            if new {
                let one = name_frames(&frames, no_demangle);
                let ghost one_v = named_stack(one@);
                named.push(one);
                assert(named_stacks(named@) =~= named_stacks(done).push(one_v));
            }
            assert(named_stacks(named@) =~= native_stacks(tally.seen(), no_demangle));
        } else {
            assert(texts(frames@).len() == 0);
        }
    }
    assert(v.take(n as int) =~= v);
    let ghost seen = tally.seen();
    let ghost weights = tally.weights();
    proof {
        if scaled_fits(seen, weights, rate as int) {
            lemma_unscaled_fits(seen, weights, rate as int);
        }
    }
    let values = match tally.finish() {
        Some(x) => x,
        None => {
            return Err(AllocError::Overflow);
        },
    };
    let scaled = match scale_values::<Seq<Seq<char>>>(&values, rate, Ghost(seen), Ghost(weights)) {
        Some(x) => x,
        None => {
            return Err(AllocError::Overflow);
        },
    };
    assert(named_stacks(named@).len() == named@.len());
    encode_alloc_profile(
        &named,
        &scaled,
        "^_*(?:malloc|calloc|realloc|moonbit_malloc.*|moonbit_realloc.*|moonbit_make_.*|mi_.*|moon_pprof_.*|mpprof_.*)$",
    )
}

/// What encoding recorded allocations gives.
pub open spec fn native_encoded(
    records: Seq<AllocationView>,
    sample_rate: u32,
    no_demangle: bool,
    r: Result<Vec<u8>, AllocError>,
) -> bool {
    let stacks = user_stacks(records);
    let sizes = user_sizes(records);
    let scale = if sample_rate == 0 {
        1int
    } else {
        sample_rate as int
    };
    alloc_encoded(
        scaled_fits(stacks, sizes, scale),
        alloc_profile(native_stacks(stacks, no_demangle), scaled_values(stacks, sizes, scale), allocator_frames()),
        r,
    )
}

proof fn lemma_names_longer(b: Seq<u8>, n: int, k: nat)
    requires
        0 <= n <= b.len(),
        names_in(b.take(n), k) is Some,
    ensures
        names_in(b, k) == names_in(b.take(n), k),
        names_in(b, k).unwrap().1 <= n,
    decreases k,
{
    if k > 0 {
        lemma_names_longer(b, n, (k - 1) as nat);
        let p = names_in(b, (k - 1) as nat).unwrap().1 as int;
        assert(b.take(n).subrange(p, p + 2) =~= b.subrange(p, p + 2));
        let len = le_value(b.subrange(p, p + 2)) as int;
        assert(b.take(n).subrange(p + 2, p + 2 + len) =~= b.subrange(p + 2, p + 2 + len));
    }
}

/// A stream that was cut short still gives the records that are in it whole.
pub proof fn law_cut_stream(b: Seq<u8>, n: int)
    requires
        0 <= n <= b.len(),
    ensures
        records_in(b.take(n)).len() <= records_in(b).len(),
        records_in(b.take(n)) == records_in(b).take(records_in(b.take(n)).len() as int),
    decreases n,
{
    let a = b.take(n);
    match record_in(a) {
        None => {
            assert(records_in(a) =~= records_in(b).take(0));
        },
        Some((r, p)) => {
            assert(a.skip(9) =~= b.skip(9).take(n - 9));
            lemma_names_longer(b.skip(9), n - 9, b[8] as nat);
            assert(a.take(8) =~= b.take(8));
            assert(a[8] == b[8]);
            assert(record_in(b) == Some((r, p)));
            let rest = b.skip(p as int);
            assert(a.skip(p as int) =~= rest.take(n - p));
            law_cut_stream(rest, n - p);
            let x = records_in(rest.take(n - p));
            assert(records_in(a) =~= records_in(b).take(records_in(a).len() as int));
        },
    }
}

} // verus!

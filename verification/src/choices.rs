//! Which axis is taken, and what is put in order.
use vstd::prelude::*;
use crate::axis::{axis_of, first_type, is_objects, is_space, is_timed, time_kind, type_names, AxisKind};
use crate::bench::{ints_of, name_placed, workloads};
use crate::folded_export::{lemma_less_not_equal, lemma_less_total, lemma_less_trans, text_less};
use crate::proto::{text_at, ProfileView};
use crate::rank::{ahead, law_ranked, ranked};
use crate::samply::{symbol_frames, SymEntryView};
use crate::to_chrome_trace::{count_axis, first_count_axis, first_time_axis, time_axis};

verus! {

/// The name of a sample type.
pub open spec fn type_of(p: ProfileView, i: int) -> Seq<char> {
    text_at(p.string_table, p.sample_type[i].ty)
}

/// The unit of a sample type.
pub open spec fn unit_of(p: ProfileView, i: int) -> Seq<char> {
    text_at(p.string_table, p.sample_type[i].unit)
}

/// Whether a sample type is one of bytes.
pub open spec fn counts_bytes(p: ProfileView, i: int) -> bool {
    let t = type_of(p, i);
    t == "alloc_space"@ || t == "inuse_space"@ || t == "space"@
}

/// Whether a sample type is one of objects.
pub open spec fn counts_objects(p: ProfileView, i: int) -> bool {
    let t = type_of(p, i);
    t == "alloc_objects"@ || t == "inuse_objects"@ || t == "objects"@
}

/// Whether a sample type is one of times, in a unit that can be shown.
pub open spec fn counts_time(p: ProfileView, i: int) -> bool {
    let t = type_of(p, i);
    let u = unit_of(p, i);
    &&& t == "cpu"@ || t == "wall"@ || t == "delay"@ || t == "latency"@ || t == "block"@ || t == "blocked"@ || t
        == "off_cpu"@ || t == "wait"@
    &&& u == "nanoseconds"@ || u == "microseconds"@ || u == "milliseconds"@ || u == "count"@
}

/// Whether an axis is the first one of a kind.
pub open spec fn is_first(p: ProfileView, i: int, f: spec_fn(ProfileView, int) -> bool) -> bool {
    &&& 0 <= i < p.sample_type.len()
    &&& f(p, i)
    &&& forall|j: int| 0 <= j < i ==> !#[trigger] f(p, j)
}

/// Whether there is no axis of a kind.
pub open spec fn is_none(p: ProfileView, f: spec_fn(ProfileView, int) -> bool) -> bool {
    forall|j: int| 0 <= j < p.sample_type.len() ==> !#[trigger] f(p, j)
}

pub(crate) proof fn lemma_first_type(t: Seq<(Seq<char>, Seq<char>)>, f: spec_fn((Seq<char>, Seq<char>)) -> bool)
    requires
        t.len() <= usize::MAX,
    ensures
        match first_type(t, f) {
            Some(i) => 0 <= i < t.len() && f(t[i as int]) && forall|j: int| 0 <= j < i ==> !f(#[trigger] t[j]),
            None => forall|j: int| 0 <= j < t.len() ==> !f(#[trigger] t[j]),
        },
    decreases t.len(),
{
    if t.len() > 0 {
        let front = t.drop_last();
        lemma_first_type(front, f);
        match first_type(front, f) {
            Some(i) => {
                assert forall|j: int| 0 <= j < i implies !f(#[trigger] t[j]) by {
                    assert(front[j] == t[j]);
                }
            },
            None => {
                assert forall|j: int| 0 <= j < front.len() implies !f(#[trigger] t[j]) by {
                    assert(front[j] == t[j]);
                }
            },
        }
    }
}

/// A summary is about bytes where there are any, the first ones, with the first objects
/// beside them. Otherwise it is about objects, or else about times, and what is left is the
/// first sample type.
pub proof fn law_summary_axis(p: ProfileView)
    requires
        p.sample_type.len() <= usize::MAX,
    ensures
        ({
            let bytes = |p: ProfileView, i: int| counts_bytes(p, i);
            let objects = |p: ProfileView, i: int| counts_objects(p, i);
            let time = |p: ProfileView, i: int| counts_time(p, i);
            let a = axis_of(p);
            &&& !is_none(p, bytes) ==> is_first(p, a.idx as int, bytes) && a.kind is Bytes && a.is_heap && match a.secondary_idx {
                Some(j) => is_first(p, j as int, objects),
                None => is_none(p, objects),
            }
            &&& is_none(p, bytes) && !is_none(p, objects) ==> is_first(p, a.idx as int, objects) && a.kind is Count
                && a.is_heap && a.secondary_idx is None
            &&& is_none(p, bytes) && is_none(p, objects) && !is_none(p, time) ==> is_first(p, a.idx as int, time)
                && !a.is_heap && a.secondary_idx is None && (unit_of(p, a.idx as int) == "count"@ <==> a.kind is Count)
            &&& is_none(p, bytes) && is_none(p, objects) && is_none(p, time) ==> a.idx == 0 && !a.is_heap && a.kind is Count
                && a.secondary_idx is None
        }),
{
    let t = type_names(p);
    let space = |x: (Seq<char>, Seq<char>)| is_space(x);
    let objs = |x: (Seq<char>, Seq<char>)| is_objects(x);
    let timed = |x: (Seq<char>, Seq<char>)| is_timed(x);
    let bytes = |p: ProfileView, i: int| counts_bytes(p, i);
    let objects = |p: ProfileView, i: int| counts_objects(p, i);
    let time = |p: ProfileView, i: int| counts_time(p, i);
    lemma_first_type(t, space);
    lemma_first_type(t, objs);
    lemma_first_type(t, timed);
    lemma_units_apart();
    assert forall|i: int| 0 <= i < t.len() implies space(#[trigger] t[i]) == bytes(p, i) && objs(t[i]) == objects(p, i)
        && timed(t[i]) == time(p, i) by {}
    assert forall|i: int| 0 <= i < p.sample_type.len() implies #[trigger] bytes(p, i) == space(t[i]) by {}
    assert forall|i: int| 0 <= i < p.sample_type.len() implies #[trigger] objects(p, i) == objs(t[i]) by {}
    assert forall|i: int| 0 <= i < p.sample_type.len() implies #[trigger] time(p, i) == timed(t[i]) by {}
    match first_type(t, space) {
        Some(i) => {
            assert(space(t[i as int]));
            assert(bytes(p, i as int));
        },
        None => {},
    }
    match first_type(t, objs) {
        Some(i) => {
            assert(objs(t[i as int]));
            assert(objects(p, i as int));
        },
        None => {},
    }
    match first_type(t, timed) {
        Some(i) => {
            assert(timed(t[i as int]));
            assert(time(p, i as int));
        },
        None => {},
    }
}

pub(crate) proof fn lemma_units_apart()
    ensures
        "nanoseconds"@ != "microseconds"@,
        "nanoseconds"@ != "milliseconds"@,
        "nanoseconds"@ != "count"@,
        "microseconds"@ != "milliseconds"@,
        "microseconds"@ != "count"@,
        "milliseconds"@ != "count"@,
{
    reveal_strlit("nanoseconds");
    reveal_strlit("microseconds");
    reveal_strlit("milliseconds");
    reveal_strlit("count");
    assert("nanoseconds"@[0] == 'n' && "microseconds"@[2] == 'c' && "milliseconds"@[2] == 'l' && "count"@[0] == 'c');
    assert("microseconds"@[0] == 'm' && "milliseconds"@[0] == 'm');
}

/// Times are shown in milliseconds: a value over its divisor is that many of them.
pub proof fn law_times_in_milliseconds(n: int)
    ensures
        time_kind("nanoseconds"@) matches Some(AxisKind::Time { div, .. }) && n * 1_000_000 / (div as int) == n,
        time_kind("microseconds"@) matches Some(AxisKind::Time { div, .. }) && n * 1_000 / (div as int) == n,
        time_kind("milliseconds"@) matches Some(AxisKind::Time { div, .. }) && n / (div as int) == n,
        time_kind("count"@) is Some && time_kind("count"@).unwrap() is Count,
{
    lemma_units_apart();
}

/// Whether a sample type is CPU or wall time in a unit of time.
pub open spec fn is_clock(p: ProfileView, i: int) -> bool {
    let t = type_of(p, i);
    let u = unit_of(p, i);
    &&& t == "cpu"@ || t == "wall"@
    &&& u == "nanoseconds"@ || u == "microseconds"@ || u == "milliseconds"@ || u == "seconds"@
}

/// Whether a sample type counts samples.
pub open spec fn counts_samples(p: ProfileView, i: int) -> bool {
    type_of(p, i) == "samples"@ && unit_of(p, i) == "count"@
}

proof fn lemma_first_time(p: ProfileView, i: int)
    requires
        0 <= i <= p.sample_type.len(),
    ensures
        match first_time_axis(p, i) {
            Some(k) => i <= k < p.sample_type.len() && is_clock(p, k) && forall|j: int|
                i <= j < k ==> !#[trigger] is_clock(p, j),
            None => forall|j: int| i <= j < p.sample_type.len() ==> !#[trigger] is_clock(p, j),
        },
    decreases p.sample_type.len() - i,
{
    if i < p.sample_type.len() {
        lemma_first_time(p, i + 1);
    }
}

proof fn lemma_first_count(p: ProfileView, i: int)
    requires
        0 <= i <= p.sample_type.len(),
    ensures
        match first_count_axis(p, i) {
            Some(k) => i <= k < p.sample_type.len() && counts_samples(p, k) && forall|j: int|
                i <= j < k ==> !#[trigger] counts_samples(p, j),
            None => forall|j: int| i <= j < p.sample_type.len() ==> !#[trigger] counts_samples(p, j),
        },
    decreases p.sample_type.len() - i,
{
    if i < p.sample_type.len() {
        lemma_first_count(p, i + 1);
    }
}

/// A trace takes the time from the first axis of CPU or wall time and the counts from the
/// first one of samples, unless others are asked for.
pub proof fn law_trace_axes(p: ProfileView, i: usize)
    ensures
        match time_axis(p, None) {
            Ok(k) => 0 <= k < p.sample_type.len() && is_clock(p, k) && forall|j: int|
                0 <= j < k ==> !#[trigger] is_clock(p, j),
            Err(_) => forall|j: int| 0 <= j < p.sample_type.len() ==> !#[trigger] is_clock(p, j),
        },
        match count_axis(p, None) {
            Some(k) => 0 <= k < p.sample_type.len() && counts_samples(p, k) && forall|j: int|
                0 <= j < k ==> !#[trigger] counts_samples(p, j),
            None => forall|j: int| 0 <= j < p.sample_type.len() ==> !#[trigger] counts_samples(p, j),
        },
        i < p.sample_type.len() ==> (time_axis(p, Some(i)) matches Ok(k) && k == i),
        i >= p.sample_type.len() ==> time_axis(p, Some(i)) is Err,
        count_axis(p, Some(i)) == Some(i as int),
{
    lemma_first_time(p, 0);
    lemma_first_count(p, 0);
}

proof fn lemma_first_export(p: ProfileView, i: int)
    requires
        0 <= i <= p.sample_type.len(),
    ensures
        match crate::folded_export::first_axis(p, i) {
            Some(k) => i <= k < p.sample_type.len() && is_exportable(p, k) && forall|j: int|
                i <= j < k ==> !#[trigger] is_exportable(p, j),
            None => forall|j: int| i <= j < p.sample_type.len() ==> !#[trigger] is_exportable(p, j),
        },
    decreases p.sample_type.len() - i,
{
    if i < p.sample_type.len() {
        lemma_first_export(p, i + 1);
    }
}

/// Whether a sample type is exported where none is asked for.
pub open spec fn is_exportable(p: ProfileView, i: int) -> bool {
    (type_of(p, i) == "cpu"@ || type_of(p, i) == "wall"@) && crate::folded_export::is_known_unit(unit_of(p, i))
}

/// An export takes the first axis of CPU or wall time in a known unit, unless another is asked
/// for.
pub proof fn law_export_axis(p: ProfileView, i: usize)
    ensures
        match crate::folded_export::axis_of(p, None) {
            Ok(k) => 0 <= k < p.sample_type.len() && is_exportable(p, k) && forall|j: int|
                0 <= j < k ==> !#[trigger] is_exportable(p, j),
            Err(_) => forall|j: int| 0 <= j < p.sample_type.len() ==> !#[trigger] is_exportable(p, j),
        },
        i < p.sample_type.len() ==> (crate::folded_export::axis_of(p, Some(i)) matches Ok(k) && k == i),
        i >= p.sample_type.len() ==> crate::folded_export::axis_of(p, Some(i)) is Err,
{
    lemma_first_export(p, 0);
}

/// Texts are in order of the first characters in which they differ, and a text stands before
/// one that goes on.
pub proof fn law_text_order(a: Seq<char>, x: char, y: char, b: Seq<char>, c: Seq<char>)
    ensures
        x != y ==> text_less(a + seq![x] + b, a + seq![y] + c) == (x < y),
        text_less(a, a + seq![x] + b),
        !text_less(a, a),
    decreases a.len(),
{
    let l = a + seq![x] + b;
    let r = a + seq![y] + c;
    if a.len() > 0 {
        let rest = a.drop_first();
        law_text_order(rest, x, y, b, c);
        assert(l.drop_first() =~= rest + seq![x] + b);
        assert(r.drop_first() =~= rest + seq![y] + c);
        assert(l[0] == a[0] && r[0] == a[0]);
    } else {
        assert(l[0] == x && r[0] == y);
    }
}

spec fn in_text_order(s: Seq<Seq<char>>) -> bool {
    forall|i: int, j: int| 0 <= i < j < s.len() ==> !text_less(#[trigger] s[j], #[trigger] s[i])
}

proof fn lemma_name_placed(s: Seq<Seq<char>>, x: Seq<char>)
    requires
        in_text_order(s),
    ensures
        in_text_order(name_placed(s, x)),
        name_placed(s, x).to_multiset() == s.to_multiset().insert(x),
        forall|i: int|
            0 <= i < name_placed(s, x).len() ==> (#[trigger] name_placed(s, x)[i]) == x || s.contains(
                name_placed(s, x)[i],
            ),
    decreases s.len(),
{
    broadcast use vstd::seq_lib::group_to_multiset_ensures;

    let r = name_placed(s, x);
    if s.len() == 0 || !text_less(x, s.last()) {
        assert forall|i: int, j: int| 0 <= i < j < r.len() implies !text_less(#[trigger] r[j], #[trigger] r[i]) by {
            if j == s.len() {
                if i < s.len() - 1 && text_less(x, s[i]) {
                    assert(!text_less(s[s.len() - 1], s[i]));
                    lemma_less_total(s[i], s.last());
                    if s[i] != s.last() {
                        lemma_less_trans(x, s[i], s.last());
                    }
                }
            }
        }
        assert forall|i: int| 0 <= i < r.len() implies (#[trigger] r[i]) == x || s.contains(r[i]) by {
            if i < s.len() {
                assert(s[i] == r[i]);
            }
        }
    } else {
        let front = s.drop_last();
        let last = s.last();
        let q = name_placed(front, x);
        assert forall|i: int, j: int| 0 <= i < j < front.len() implies !text_less(#[trigger] front[j], #[trigger] front[i]) by {
            assert(!text_less(s[j], s[i]));
        }
        lemma_name_placed(front, x);
        assert(r == q.push(last));
        assert(front.push(last) =~= s);
        assert(r.to_multiset() =~= s.to_multiset().insert(x));
        assert forall|i: int, j: int| 0 <= i < j < r.len() implies !text_less(#[trigger] r[j], #[trigger] r[i]) by {
            if j < q.len() {
                assert(!text_less(q[j], q[i]));
            } else {
                assert(r[i] == q[i]);
                if q[i] == x {
                    lemma_less_not_equal(x, last);
                } else {
                    assert(front.contains(q[i]));
                    let k = front.index_of(q[i]);
                    assert(s[k] == q[i]);
                    assert(!text_less(s[s.len() - 1], s[k]));
                }
            }
        }
        assert forall|i: int| 0 <= i < r.len() implies (#[trigger] r[i]) == x || s.contains(r[i]) by {
            if i < q.len() {
                assert(r[i] == q[i]);
                if q[i] != x {
                    assert(s[front.index_of(q[i])] == q[i]);
                }
            } else {
                assert(s[s.len() - 1] == r[i]);
            }
        }
    }
}

/// The workloads are the names but `main`, in order of text.
pub proof fn law_workloads(names: Seq<Seq<char>>)
    ensures
        forall|i: int, j: int|
            0 <= i < j < workloads(names).len() ==> !text_less(
                #[trigger] workloads(names)[j],
                #[trigger] workloads(names)[i],
            ),
        workloads(names).to_multiset() == names.filter(|x: Seq<char>| x != "main"@).to_multiset(),
    decreases names.len(),
{
    broadcast use vstd::seq_lib::group_to_multiset_ensures;

    reveal(Seq::filter);
    let keep = |x: Seq<char>| x != "main"@;
    if names.len() > 0 {
        let front = names.drop_last();
        law_workloads(front);
        if names.last() != "main"@ {
            assert(in_text_order(workloads(front)));
            lemma_name_placed(workloads(front), names.last());
            assert(in_text_order(workloads(names)));
        }
    } else {
        assert(workloads(names) =~= names.filter(keep));
    }
}

/// Whether a number stands in the middle of others: they can be listed, each once and none
/// before a smaller one, so that it is the one at half their number.
pub open spec fn is_middle(xs: Seq<u64>, r: u64) -> bool {
    exists|order: Seq<int>|
        {
            &&& #[trigger] order.len() == xs.len()
            &&& forall|a: int| 0 <= a < order.len() ==> 0 <= #[trigger] order[a] < xs.len()
            &&& forall|a: int, b: int|
                0 <= a < b < order.len() ==> order[a] != order[b] && xs[#[trigger] order[a]] <= xs[#[trigger] order[b]]
            &&& r == xs[order[xs.len() as int / 2]]
        }
}

/// The median stands in the middle.
pub proof fn law_median(xs: Seq<u64>)
    requires
        xs.len() > 0,
    ensures
        is_middle(xs, xs[ranked(ints_of(xs))[xs.len() as int / 2]]),
{
    let keys = ints_of(xs);
    let order = ranked(keys);
    law_ranked(keys);
    assert forall|a: int, b: int| 0 <= a < b < order.len() implies order[a] != order[b] && xs[#[trigger] order[a]]
        <= xs[#[trigger] order[b]] by {
        assert(ahead(keys, order[a], order[b]));
    }
    assert(order.len() == xs.len());
}

/// The names at an address stand innermost first: those of a symbol's calls the other way
/// round, each with its file and its line. A call without a name has that of the symbol.
pub proof fn law_inlined_calls(strings: Seq<Seq<char>>, sym: SymEntryView, rva: u64, i: int)
    requires
        0 <= i < sym.frames.len(),
    ensures
        ({
            let n = sym.frames.len();
            let f = sym.frames[i];
            let got = symbol_frames(strings, sym, rva)[n - 1 - i];
            &&& symbol_frames(strings, sym, rva).len() == n
            &&& text_at(strings, f.function).len() > 0 ==> got.name == text_at(strings, f.function)
            &&& text_at(strings, f.function).len() == 0 ==> got.name == text_at(strings, sym.symbol)
            &&& f.file matches Some(x) ==> got.file == text_at(strings, x)
            &&& f.file is None ==> got.file.len() == 0
            &&& f.line matches Some(x) ==> got.line == x
            &&& f.line is None ==> got.line == 0
            &&& got.address == rva
        }),
{
}

/// A symbol without calls has its own name.
pub proof fn law_symbol_alone(strings: Seq<Seq<char>>, sym: SymEntryView, rva: u64)
    requires
        sym.frames.len() == 0,
    ensures
        symbol_frames(strings, sym, rva).len() == 1,
        symbol_frames(strings, sym, rva)[0].name == text_at(strings, sym.symbol),
        symbol_frames(strings, sym, rva)[0].address == rva,
        symbol_frames(strings, sym, rva)[0].line == 0,
{
}

} // verus!

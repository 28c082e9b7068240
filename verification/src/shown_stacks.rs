//! In which order stacks stand in what is exported and imported.
use vstd::prelude::*;
use crate::float::nearest_i64;
use crate::folded::{folded_profile, folded_tables, FoldedImportOptions, FoldedStackView};
use crate::folded_export::{added, exported, folded_sums, frame_names, sanitized, stack_text, value_at};
use crate::folded_import::{law_imported_frames, name_frames};
use crate::proto::{text_at, ProfileView, SampleView};
use crate::resolve::{frame_at, location_with, sample_frames, FrameView};
use crate::shown::{entry_frame, is_small, lemma_shown, lemma_shows_one_more, shows};
use crate::speedscope::{
    frames_tabled, kept_ids, or_no_text, or_zero, shown_name, speedscope_profile, value_type_of, weighed,
    weight_at, SampledProfileView,
};
use crate::speedscope_export::{frame_table, positions};
use crate::speedscope_round_trip::{exported_stacks, lemma_position_bounds};
use crate::summed::{is_function, is_location, lemma_function_found, lemma_location_found};
use crate::tables::{lemma_start_tables, start_tables, TablesView};
use crate::text::{dec, hex, law_decimal_round_trip};

verus! {

/// Whether a frame is what a location shows: the name, the file, the line and the column of
/// its first line. The function's first line stands in for one that is unknown. A location
/// without a line goes by its address, and what is not there by its id.
pub open spec fn is_shown_at(p: ProfileView, id: u64, f: FrameView) -> bool {
    &&& forall|l: int, k: int|
        #![trigger is_location(p, id, l), is_function(p, p.location[l].line[0].function_id, k)]
        is_location(p, id, l) && p.location[l].line.len() > 0 && is_function(
            p,
            p.location[l].line[0].function_id,
            k,
        ) ==> {
            let name = text_at(p.string_table, p.function[k].name);
            let file = text_at(p.string_table, p.function[k].filename);
            let line = p.location[l].line[0];
            &&& name.len() > 0 ==> f.name == name
            &&& name.len() == 0 ==> f.name == "(unknown)"@
            &&& file.len() > 0 ==> f.file == Some(file)
            &&& file.len() == 0 ==> f.file is None
            &&& line.line > 0 ==> f.line == Some(line.line)
            &&& line.line <= 0 && p.function[k].start_line > 0 ==> f.line == Some(p.function[k].start_line)
            &&& line.line <= 0 && p.function[k].start_line <= 0 ==> f.line is None
            &&& line.column > 0 ==> f.col == Some(line.column)
            &&& line.column <= 0 ==> f.col is None
        }
    &&& (forall|l: int| !is_location(p, id, l)) ==> f.name == "location:"@ + dec(id as nat)
    &&& forall|l: int| #[trigger]
        is_location(p, id, l) && p.location[l].line.len() == 0 ==> f.name == "0x"@ + hex(p.location[l].address as nat)
    &&& forall|l: int| #[trigger]
        is_location(p, id, l) && p.location[l].line.len() > 0 && (forall|k: int|
            !is_function(p, p.location[l].line[0].function_id, k)) ==> f.name == "function:"@ + dec(
            p.location[l].line[0].function_id as nat,
        )
}

/// What a location shows.
pub proof fn law_frame_shown(p: ProfileView, id: u64)
    ensures
        is_shown_at(p, id, frame_at(p, id)),
{
    lemma_location_found(p, id);
    match location_with(p.location, id) {
        Some(l) => {
            if p.location[l].line.len() > 0 {
                lemma_function_found(p, p.location[l].line[0].function_id);
            }
        },
        None => {},
    }
}

/// The frames of a sample stand root first: the one of the last location is the first.
pub proof fn law_root_first(p: ProfileView, s: SampleView)
    ensures
        sample_frames(p, s).len() == s.location_id.len(),
        forall|i: int|
            0 <= i < s.location_id.len() ==> is_shown_at(
                p,
                #[trigger] s.location_id[i],
                sample_frames(p, s)[s.location_id.len() - 1 - i],
            ),
{
    assert forall|i: int| 0 <= i < s.location_id.len() implies is_shown_at(
        p,
        #[trigger] s.location_id[i],
        sample_frames(p, s)[s.location_id.len() - 1 - i],
    ) by {
        law_frame_shown(p, s.location_id[i]);
    }
}

/// A folded stack stands root first, and its sample leaf first: the location of the last name
/// is the first.
pub proof fn law_folded_stack(x: Seq<FoldedStackView>, opts: FoldedImportOptions, i: int, j: int)
    requires
        0 <= i < x.len(),
        0 <= j < x[i].frames.len(),
        x[i].frames[j].len() > 0,
        is_small(folded_tables(x, opts)),
    ensures
        ({
            let p = folded_profile(x, opts);
            let s = p.sample[i];
            &&& p.sample.len() == x.len()
            &&& s.location_id.len() == x[i].frames.len()
            &&& frame_at(p, s.location_id[x[i].frames.len() - 1 - j]).name == x[i].frames[j]
            &&& is_shown_at(
                p,
                s.location_id[x[i].frames.len() - 1 - j],
                frame_at(p, s.location_id[x[i].frames.len() - 1 - j]),
            )
            &&& s.value == seq![1i64, x[i].value]
        }),
{
    let p = folded_profile(x, opts);
    let s = p.sample[i];
    let n = x[i].frames.len();
    law_imported_frames(x, opts, i);
    assert(sample_frames(p, s).len() == name_frames(x[i].frames).len());
    assert(sample_frames(p, s)[j] == name_frames(x[i].frames)[j]);
    assert(sample_frames(p, s)[j] == frame_at(p, s.location_id[n - 1 - j]));
    law_frame_shown(p, s.location_id[n - 1 - j]);
}

/// A name without the characters that separate: a semicolon becomes a colon, and the end of a
/// line a space.
pub proof fn law_name_cleaned(s: Seq<char>)
    ensures
        sanitized(s).len() == s.len(),
        forall|i: int|
            0 <= i < s.len() ==> (#[trigger] sanitized(s)[i] == if s[i] == ';' {
                ':'
            } else if s[i] == '\n' {
                ' '
            } else {
                s[i]
            }),
        !sanitized(s).contains(';'),
        !sanitized(s).contains('\n'),
{
    let t = sanitized(s);
    assert forall|i: int| 0 <= i < t.len() implies t[i] != ';' && t[i] != '\n' by {}
}

/// A stack as text, from the last location to the first, with semicolons between.
pub open spec fn spelled_out(p: ProfileView, ids: Seq<u64>) -> Seq<char>
    decreases ids.len(),
{
    if ids.len() == 0 {
        Seq::empty()
    } else if ids.len() == 1 {
        sanitized(frame_at(p, ids[0]).name)
    } else {
        spelled_out(p, ids.drop_first()) + seq![';'] + sanitized(frame_at(p, ids[0]).name)
    }
}

/// The column of a sample spells its stack out, the root first and the leaf last.
pub proof fn law_stack_spelled(p: ProfileView, s: SampleView)
    ensures
        stack_text(p, s) == spelled_out(p, s.location_id),
    decreases s.location_id.len(),
{
    let ids = s.location_id;
    let names = frame_names(p, s);
    if ids.len() > 1 {
        let rest = SampleView { location_id: ids.drop_first(), ..s };
        law_stack_spelled(p, rest);
        assert(names.drop_last() =~= frame_names(p, rest));
        assert(names.last() == sanitized(frame_at(p, ids[0]).name));
    } else if ids.len() == 1 {
        assert(names[0] == sanitized(frame_at(p, ids[0]).name));
    }
}

/// The values of the samples that are spelled alike.
pub open spec fn values_spelled(p: ProfileView, samples: Seq<SampleView>, axis: int, text: Seq<char>) -> int
    decreases samples.len(),
{
    if samples.len() == 0 {
        0
    } else {
        let s = samples.last();
        values_spelled(p, samples.drop_last(), axis, text) + if spelled_out(p, s.location_id) == text && 0 <= axis
            < s.value.len() {
            s.value[axis] as int
        } else {
            0
        }
    }
}

spec fn row_value(m: Seq<(Seq<char>, int)>, k: Seq<char>) -> int
    decreases m.len(),
{
    if m.len() == 0 {
        0
    } else {
        row_value(m.drop_first(), k) + if m[0].0 == k {
            m[0].1
        } else {
            0
        }
    }
}

/// Whether a sample is spelled so.
pub open spec fn is_spelled(p: ProfileView, samples: Seq<SampleView>, text: Seq<char>) -> bool {
    exists|i: int| 0 <= i < samples.len() && spelled_out(p, (#[trigger] samples[i]).location_id) == text
}

/// Whether there is a line of a text.
pub open spec fn has_row(m: Seq<(Seq<char>, int)>, k: Seq<char>) -> bool {
    exists|i: int| 0 <= i < m.len() && (#[trigger] m[i]).0 == k
}

proof fn lemma_row_front(m: Seq<(Seq<char>, int)>, x: (Seq<char>, int), k: Seq<char>)
    ensures
        row_value(seq![x] + m, k) == row_value(m, k) + if x.0 == k {
            x.1
        } else {
            0
        },
        has_row(seq![x] + m, k) <==> x.0 == k || has_row(m, k),
{
    let all = seq![x] + m;
    assert(all.drop_first() =~= m);
    if x.0 == k {
        assert(all[0].0 == k);
    }
    if has_row(m, k) {
        let i = choose|i: int| 0 <= i < m.len() && (#[trigger] m[i]).0 == k;
        assert(all[i + 1].0 == k);
    }
    if has_row(all, k) && x.0 != k {
        let i = choose|i: int| 0 <= i < all.len() && (#[trigger] all[i]).0 == k;
        assert(m[i - 1].0 == k);
    }
}

proof fn lemma_row_added(m: Seq<(Seq<char>, int)>, k: Seq<char>, v: int, q: Seq<char>)
    ensures
        row_value(added(m, k, v), q) == row_value(m, q) + if q == k {
            v
        } else {
            0
        },
        has_row(added(m, k, v), q) <==> q == k || has_row(m, q),
    decreases m.len(),
{
    if m.len() == 0 {
        assert(seq![(k, v)] + m =~= seq![(k, v)]);
        lemma_row_front(m, (k, v), q);
    } else {
        let rest = m.drop_first();
        assert(seq![m[0]] + rest =~= m);
        lemma_row_front(rest, m[0], q);
        if m[0].0 == k {
            lemma_row_front(rest, (k, m[0].1 + v), q);
        } else if crate::folded_export::text_less(k, m[0].0) {
            lemma_row_front(m, (k, v), q);
        } else {
            lemma_row_added(rest, k, v, q);
            lemma_row_front(added(rest, k, v), m[0], q);
        }
    }
}

proof fn lemma_sums(p: ProfileView, samples: Seq<SampleView>, axis: int, text: Seq<char>)
    ensures
        row_value(folded_sums(p, samples, axis), text) == values_spelled(p, samples, axis, text),
        has_row(folded_sums(p, samples, axis), text) <==> is_spelled(p, samples, text),
    decreases samples.len(),
{
    if samples.len() > 0 {
        let front = samples.drop_last();
        let s = samples.last();
        lemma_sums(p, front, axis, text);
        law_stack_spelled(p, s);
        lemma_row_added(folded_sums(p, front, axis), stack_text(p, s), value_at(s, axis) as int, text);
        if is_spelled(p, samples, text) {
            let i = choose|i: int| 0 <= i < samples.len() && spelled_out(p, (#[trigger] samples[i]).location_id) == text;
            if i < front.len() {
                assert(front[i] == samples[i]);
            }
        }
        if has_row(folded_sums(p, samples, axis), text) {
            if stack_text(p, s) == text {
                assert(samples[samples.len() - 1] == s);
            } else {
                let i = choose|i: int| 0 <= i < front.len() && spelled_out(p, (#[trigger] front[i]).location_id) == text;
                assert(samples[i] == front[i]);
            }
        }
    }
}

proof fn lemma_row_alone(m: Seq<(Seq<char>, int)>, i: int)
    requires
        0 <= i < m.len(),
        forall|a: int, b: int| 0 <= a < b < m.len() ==> (#[trigger] m[a]).0 != (#[trigger] m[b]).0,
    ensures
        row_value(m, m[i].0) == m[i].1,
    decreases m.len(),
{
    let rest = m.drop_first();
    assert forall|a: int, b: int| 0 <= a < b < rest.len() implies (#[trigger] rest[a]).0 != (#[trigger] rest[b]).0 by {
        assert(m[a + 1].0 != m[b + 1].0);
    }
    if i == 0 {
        lemma_row_none(rest, m[0].0);
    } else {
        lemma_row_alone(rest, i - 1);
        assert(m[0].0 != m[i].0);
        assert(rest[i - 1] == m[i]);
    }
}

proof fn lemma_row_none(m: Seq<(Seq<char>, int)>, k: Seq<char>)
    requires
        forall|a: int| 0 <= a < m.len() ==> (#[trigger] m[a]).0 != k,
    ensures
        row_value(m, k) == 0,
    decreases m.len(),
{
    if m.len() > 0 {
        let rest = m.drop_first();
        assert forall|a: int| 0 <= a < rest.len() implies (#[trigger] rest[a]).0 != k by {
            assert(m[a + 1].0 != k);
        }
        lemma_row_none(rest, k);
    }
}

/// Folded text has one line for each way in which a sample is spelled, with the values of all
/// samples that are spelled so.
pub proof fn law_folded_sums(p: ProfileView, samples: Seq<SampleView>, axis: int)
    ensures
        forall|i: int|
            0 <= i < folded_sums(p, samples, axis).len() ==> (#[trigger] folded_sums(p, samples, axis)[i]).1
                == values_spelled(p, samples, axis, folded_sums(p, samples, axis)[i].0),
        forall|text: Seq<char>| #[trigger]
            has_row(folded_sums(p, samples, axis), text) <==> is_spelled(p, samples, text),
{
    let m = folded_sums(p, samples, axis);
    crate::folded_export::law_folded_lines(p, samples, axis);
    assert forall|a: int, b: int| 0 <= a < b < m.len() implies (#[trigger] m[a]).0 != (#[trigger] m[b]).0 by {
        crate::folded_export::lemma_less_not_equal(m[a].0, m[b].0);
    }
    assert forall|i: int| 0 <= i < m.len() implies (#[trigger] m[i]).1 == values_spelled(p, samples, axis, m[i].0) by {
        lemma_sums(p, samples, axis, m[i].0);
        lemma_row_alone(m, i);
    }
    assert forall|text: Seq<char>| #[trigger] has_row(m, text) <==> is_spelled(p, samples, text) by {
        lemma_sums(p, samples, axis, text);
    }
}

/// The samples with a stack and a value above zero are exported, in their order.
pub proof fn law_exported(samples: Seq<SampleView>, axis: int)
    ensures
        exported(samples, axis) == samples.filter(
            |s: SampleView| s.location_id.len() != 0 && 0 <= axis < s.value.len() && s.value[axis] > 0,
        ),
    decreases samples.len(),
{
    reveal(Seq::filter);
    let keep = |s: SampleView| s.location_id.len() != 0 && 0 <= axis < s.value.len() && s.value[axis] > 0;
    if samples.len() > 0 {
        law_exported(samples.drop_last(), axis);
        assert(exported(samples, axis) =~= samples.filter(keep));
    } else {
        assert(exported(samples, axis) =~= samples.filter(keep));
    }
}

/// An exported stack stands root first: its last place is that of the frame of the sample's
/// first location.
pub proof fn law_speedscope_stack_exported(p: ProfileView, axis: int, i: int, j: int)
    requires
        0 <= i < exported(p.sample, axis).len(),
        0 <= j < exported(p.sample, axis)[i].location_id.len(),
        frame_table(p, exported(p.sample, axis)).len() <= i64::MAX,
        frame_table(p, exported(p.sample, axis)).len() <= usize::MAX,
    ensures
        ({
            let s = exported(p.sample, axis)[i];
            let stack = exported_stacks(p, axis)[i];
            let table = frame_table(p, exported(p.sample, axis));
            let n = s.location_id.len();
            &&& exported_stacks(p, axis).len() == exported(p.sample, axis).len()
            &&& stack.len() == n
            &&& stack[n - 1 - j] < table.len()
            &&& is_shown_at(p, s.location_id[j], table[stack[n - 1 - j] as int])
            &&& table[stack[n - 1 - j] as int] == frame_at(p, s.location_id[j])
        }),
{
    let samples = exported(p.sample, axis);
    let s = samples[i];
    lemma_position_bounds(p, samples, i);
    let k = s.location_id.len() - 1 - j;
    let t = frame_table(p, samples);
    assert(positions(t, sample_frames(p, s))[k] < t.len());
    law_frame_shown(p, s.location_id[j]);
}

/// The places of a stack that are in a table.
pub open spec fn known_places(stack: Seq<usize>, n: nat) -> Seq<usize> {
    stack.filter(|k: usize| k < n)
}

proof fn lemma_known_places(stack: Seq<usize>, n: nat)
    ensures
        kept_ids(stack, n).len() == known_places(stack, n).len(),
        forall|j: int|
            0 <= j < known_places(stack, n).len() ==> kept_ids(stack, n)[known_places(stack, n).len() - 1 - j] == (
            #[trigger] known_places(stack, n)[j] + 1) as u64 && known_places(stack, n)[j] < n,
    decreases stack.len(),
{
    reveal(Seq::filter);
    if stack.len() > 0 {
        let front = stack.drop_last();
        lemma_known_places(front, n);
        let a = known_places(front, n);
        let b = known_places(stack, n);
        assert forall|j: int| 0 <= j < b.len() implies kept_ids(stack, n)[b.len() - 1 - j] == (#[trigger] b[j] + 1) as u64
            && b[j] < n by {
            if j < a.len() {
                assert(b[j] == a[j]);
                assert(kept_ids(front, n)[a.len() - 1 - j] == (a[j] + 1) as u64);
            }
        }
    }
}

/// The frame of an imported frame.
pub open spec fn imported_frame(f: FrameView) -> FrameView {
    entry_frame(shown_name(f.name), or_no_text(f.file), or_zero(f.line), or_zero(f.line), or_zero(f.col))
}

spec fn place_keys(n: nat) -> Seq<Seq<char>> {
    Seq::new(n, |i: int| dec(i as nat))
}

proof fn lemma_tabled(t: TablesView, frames: Seq<FrameView>)
    requires
        shows(t, Seq::empty()),
        t.keys.len() == 0,
        frames.len() <= i64::MAX,
    ensures
        shows(frames_tabled(t, frames), Seq::new(frames.len(), |i: int| imported_frame(frames[i]))),
        frames_tabled(t, frames).keys == place_keys(frames.len()),
    decreases frames.len(),
{
    let want = Seq::new(frames.len(), |i: int| imported_frame(frames[i]));
    if frames.len() == 0 {
        assert(want =~= Seq::empty());
        assert(t.keys =~= place_keys(0));
    } else {
        let front = frames.drop_last();
        let shown = Seq::new(front.len(), |i: int| imported_frame(front[i]));
        lemma_tabled(t, front);
        let before = frames_tabled(t, front);
        let n = front.len();
        let f = frames.last();
        let key = dec(n);
        if before.keys.contains(key) {
            let k = choose|k: int| 0 <= k < before.keys.len() && before.keys[k] == key;
            law_decimal_round_trip(k as nat);
            law_decimal_round_trip(n);
        }
        let line = or_zero(f.line);
        lemma_shows_one_more(
            before,
            shown,
            key,
            (shown_name(f.name), shown_name(f.name), or_no_text(f.file)),
            line,
            line,
            or_zero(f.col),
        );
        assert(shown.push(imported_frame(f)) =~= want);
        assert(frames_tabled(t, frames).keys =~= place_keys(frames.len()));
    }
}

/// Whether a stack with its weight is kept: it has a place in the table, and a weight.
pub open spec fn is_weighed(stacks: Seq<Seq<usize>>, weights: Seq<u64>, n: nat, i: int) -> bool {
    known_places(stacks[i], n).len() > 0 && (i < weights.len() ==> nearest_i64(weights[i]) > 0)
}

/// How many of the first stacks are kept.
pub open spec fn weighed_before(stacks: Seq<Seq<usize>>, weights: Seq<u64>, n: nat, i: nat) -> int
    decreases i,
{
    if i == 0 {
        0
    } else {
        weighed_before(stacks, weights, n, (i - 1) as nat) + if is_weighed(stacks, weights, n, i - 1) {
            1int
        } else {
            0
        }
    }
}

proof fn lemma_weighed(stacks: Seq<Seq<usize>>, weights: Seq<u64>, n: nat, m: nat, i: int)
    requires
        m <= stacks.len(),
        0 <= i < m,
    ensures
        weighed(stacks.take(m as int), weights, n).len() == weighed_before(stacks, weights, n, m),
        is_weighed(stacks, weights, n, i) ==> 0 <= weighed_before(stacks, weights, n, i as nat) < weighed_before(stacks, weights, n, m) && weighed(
            stacks.take(m as int),
            weights,
            n,
        )[weighed_before(stacks, weights, n, i as nat)] == (kept_ids(stacks[i], n), weight_at(weights, i)),
    decreases m,
{
    let now = stacks.take(m as int);
    let l = m - 1;
    assert(now.drop_last() =~= stacks.take(l));
    assert(now.last() == stacks[l]);
    assert(weighed_before(stacks, weights, n, m) == weighed_before(stacks, weights, n, l as nat) + if is_weighed(
        stacks,
        weights,
        n,
        l,
    ) {
        1int
    } else {
        0
    });
    lemma_known_places(stacks[l], n);
    assert(is_weighed(stacks, weights, n, l) <==> kept_ids(stacks[l], n).len() > 0 && weight_at(weights, l) != 0);
    if l == 0 {
        assert(stacks.take(0) =~= Seq::empty());
        assert(weighed(now.drop_last(), weights, n).len() == 0);
    } else if i < l {
        lemma_weighed(stacks, weights, n, l as nat, i);
    } else {
        lemma_weighed(stacks, weights, n, l as nat, 0);
    }
}

/// An imported stack stands root first, and its sample leaf first. Its weight is rounded, and
/// is 1 where it has none. Places that are not in the table are left out, and so is what has
/// no stack or no weight.
pub proof fn law_speedscope_stack_imported(
    frames: Seq<FrameView>,
    p: SampledProfileView,
    mapping: Seq<char>,
    i: int,
    j: int,
)
    requires
        0 <= i < p.samples.len(),
        is_weighed(p.samples, p.weights, frames.len(), i),
        0 <= j < known_places(p.samples[i], frames.len()).len(),
        frames.len() <= i64::MAX,
        speedscope_profile(frames, p, mapping).string_table.len() <= i64::MAX,
    ensures
        ({
            let out = speedscope_profile(frames, p, mapping);
            let stack = known_places(p.samples[i], frames.len());
            let s = out.sample[weighed_before(p.samples, p.weights, frames.len(), i as nat)];
            let want = frames[stack[j] as int];
            let got = frame_at(out, s.location_id[stack.len() - 1 - j]);
            &&& out.sample.len() == weighed_before(p.samples, p.weights, frames.len(), p.samples.len())
            &&& s.location_id.len() == stack.len()
            &&& want.name.len() > 0 ==> got.name == want.name
            &&& want.name.len() == 0 ==> got.name == "(unknown)"@
            &&& (want.file matches Some(f) && f.len() > 0) ==> got.file == want.file
            &&& (want.line matches Some(n) && n > 0) ==> got.line == want.line
            &&& (want.col matches Some(n) && n > 0) ==> got.col == want.col
            &&& s.value.len() == 2
            &&& s.value[0] == 1
            &&& i < p.weights.len() ==> s.value[1] == nearest_i64(p.weights[i])
            &&& i >= p.weights.len() ==> s.value[1] == 1
        }),
{
    let out = speedscope_profile(frames, p, mapping);
    let n = frames.len();
    let (ty, unit) = value_type_of(p.unit);
    let start = start_tables("samples"@, "count"@, ty, unit, mapping);
    let t = frames_tabled(start, frames);
    let shown = Seq::new(frames.len(), |i: int| imported_frame(frames[i]));
    lemma_start_tables("samples"@, "count"@, ty, unit, mapping);
    assert(shows(start, Seq::empty()));
    lemma_tabled(start, frames);
    assert(p.samples.take(p.samples.len() as int) =~= p.samples);
    lemma_weighed(p.samples, p.weights, n, p.samples.len(), i);
    let at = weighed_before(p.samples, p.weights, n, i as nat);
    let stack = known_places(p.samples[i], n);
    lemma_known_places(p.samples[i], n);
    let s = out.sample[at];
    assert(stack[j] < n);
    let id = s.location_id[stack.len() - 1 - j];
    assert(id == stack[j] + 1);
    lemma_shown(out, t, shown, id);
    reveal_strlit("(unknown)");
}

} // verus!

//! Reading an exported Speedscope file back.
use vstd::prelude::*;
use crate::double::law_exact;
use crate::firefox_profile::value_sum;
use crate::folded::{unit_nanos, EncodedPprof};
use crate::folded_export::{axis_of, exported, exported_values, value_at, ExportError, ExportStats};
use crate::gz::loaded;
use crate::json::{
    as_bits, double_json, int_bits, is_short, is_short_double, law_plain_read_back, reads_as, JsonView,
};
use crate::json_read::{lemma_member, lemma_no_member};
use crate::json_text::text_json;
use crate::num::{clamped, is_i64};
use crate::pool::{law_entered, place};
use crate::proto::{text_at, ProfileView, SampleView};
use crate::resolve::{frame_at, sample_frames, FrameView};
use crate::shown::{entry_frame, lemma_sample_shown, lemma_shows_one_more, shows};
use crate::speedscope::{
    frames_tabled, kept_ids, or_no_text, or_zero, shown_name, speedscope_profile, value_type_of, weighed,
    weight_of, weight_total, SampledProfileView, SpeedscopeError, SpeedscopeFileView, SpeedscopeImportOptions,
};
use crate::speedscope_export::{
    are_short, end_tree, exported_as, file_members, frame_members, frame_table, frame_trees,
    frames_entered, lemma_file_keys, lemma_shared_plain, lemma_stacks_plain, lemma_weights_plain,
    lemma_frame_keys, lemma_sampled_keys, position_trees, positions, sampled_members, stack_trees,
    weight_trees, SpeedscopeExportOptions,
};
use crate::speedscope_json::{
    as_index, file_json, frame_json, frames_json, indices_json, sampled_json, shared_json, text_imported,
};
use crate::tables::{lemma_start_tables, start_tables, TablesView};
use crate::tally::total;
use crate::text::{dec, law_decimal_round_trip};

verus! {

/// The stacks of the exported samples as positions in the table of frames.
pub open spec fn exported_stacks(p: ProfileView, axis: int) -> Seq<Seq<usize>> {
    let samples = exported(p.sample, axis);
    Seq::new(samples.len(), |i: int| positions(frame_table(p, samples), sample_frames(p, samples[i])))
}

/// What an exported file with this end holds.
pub open spec fn exported_file(p: ProfileView, axis: int, end: u64) -> SpeedscopeFileView {
    let w = exported_values(p.sample, axis);
    SpeedscopeFileView {
        frames: frame_table(p, exported(p.sample, axis)),
        profiles: seq![
            SampledProfileView {
                profile_type: "sampled"@,
                unit: text_at(p.string_table, p.sample_type[axis].unit),
                start_value: int_bits(0),
                end_value: end,
                samples: exported_stacks(p, axis),
                weights: Seq::new(w.len(), |i: int| int_bits(w[i])),
            },
        ],
    }
}

proof fn lemma_frame_read_back(f: FrameView)
    ensures
        frame_json(JsonView::Object(frame_members(f))) == Some(f),
{
    let m = frame_members(f);
    lemma_frame_keys();
    lemma_member(m, 0);
    let a = if f.file is Some {
        1int
    } else {
        0
    };
    let b = a + if f.line is Some {
        1int
    } else {
        0
    };
    if f.file is Some {
        lemma_member(m, 1);
    } else {
        lemma_no_member(m, "file"@);
    }
    if f.line is Some {
        lemma_member(m, 1 + a);
    } else {
        lemma_no_member(m, "line"@);
    }
    if f.col is Some {
        lemma_member(m, 1 + b);
    } else {
        lemma_no_member(m, "col"@);
    }
    assert(frame_json(JsonView::Object(m)).unwrap() =~= f);
}

proof fn lemma_frames_read_back(t: Seq<FrameView>)
    ensures
        frames_json(Some(JsonView::Array(frame_trees(t)))) == Some(t),
{
    let a = frame_trees(t);
    assert forall|i: int| 0 <= i < a.len() implies frame_json(#[trigger] a[i]) == Some(t[i]) by {
        lemma_frame_read_back(t[i]);
    }
    assert(Seq::new(a.len(), |i: int| frame_json(a[i]).unwrap()) =~= t);
}

proof fn lemma_positions_read_back(s: Seq<usize>)
    requires
        forall|i: int| 0 <= i < s.len() ==> (#[trigger] s[i]) <= i64::MAX,
    ensures
        indices_json(JsonView::Array(position_trees(s))) == Some(s),
{
    let a = position_trees(s);
    assert forall|i: int| 0 <= i < a.len() implies as_index(#[trigger] a[i]) == Some(s[i]) by {
        assert(s[i] <= i64::MAX);
    }
    assert(Seq::new(a.len(), |i: int| as_index(a[i]).unwrap()) =~= s);
}

proof fn lemma_frames_entered(t: Seq<FrameView>, fs: Seq<FrameView>, f: FrameView)
    requires
        t.contains(f) || fs.contains(f),
    ensures
        frames_entered(t, fs).contains(f),
    decreases fs.len(),
{
    if fs.len() > 0 {
        let front = fs.drop_last();
        let u = frames_entered(t, front);
        if f != fs.last() {
            if fs.contains(f) {
                let i = fs.index_of(f);
                assert(front[i] == f);
            }
            lemma_frames_entered(t, front, f);
            let k = u.index_of(f);
            assert(frames_entered(t, fs)[k] == f);
        } else if !u.contains(f) {
            assert(frames_entered(t, fs)[u.len() as int] == f);
        }
    }
}

proof fn lemma_table_holds(p: ProfileView, samples: Seq<SampleView>, i: int, f: FrameView)
    requires
        0 <= i < samples.len(),
        sample_frames(p, samples[i]).contains(f),
    ensures
        frame_table(p, samples).contains(f),
    decreases samples.len(),
{
    let front = samples.drop_last();
    if i < front.len() {
        assert(front[i] == samples[i]);
        lemma_table_holds(p, front, i, f);
    }
    lemma_frames_entered(frame_table(p, front), sample_frames(p, samples.last()), f);
}

pub(crate) proof fn lemma_position_bounds(p: ProfileView, samples: Seq<SampleView>, i: int)
    requires
        0 <= i < samples.len(),
        frame_table(p, samples).len() <= i64::MAX,
        frame_table(p, samples).len() <= usize::MAX,
    ensures
        ({
            let t = frame_table(p, samples);
            let fs = sample_frames(p, samples[i]);
            forall|k: int|
                0 <= k < fs.len() ==> (#[trigger] positions(t, fs)[k]) < t.len() && t[positions(t, fs)[k] as int]
                    == fs[k] && positions(t, fs)[k] == t.index_of(fs[k])
        }),
{
    let t = frame_table(p, samples);
    let fs = sample_frames(p, samples[i]);
    assert forall|k: int| 0 <= k < fs.len() implies (#[trigger] positions(t, fs)[k]) < t.len()
        && t[positions(t, fs)[k] as int] == fs[k] && positions(t, fs)[k] == t.index_of(fs[k]) by {
        assert(fs.contains(fs[k]));
        lemma_table_holds(p, samples, i, fs[k]);
        let j = t.index_of(fs[k]);
        assert(0 <= j < t.len() && t[j] == fs[k]);
    }
}

/// An exported file is read back as what it was made of: the frames, the stacks, the
/// weights, the unit, and the end as it stands there.
pub proof fn law_speedscope_read_back(p: ProfileView, axis: int, opts: SpeedscopeExportOptions, end: JsonView)
    requires
        frame_table(p, exported(p.sample, axis)).len() <= i64::MAX,
        frame_table(p, exported(p.sample, axis)).len() <= usize::MAX,
        as_bits(end) is Some,
    ensures
        file_json(JsonView::Object(file_members(p, axis, opts, end))) == Some(
            exported_file(p, axis, as_bits(end).unwrap()),
        ),
{
    let samples = exported(p.sample, axis);
    let w = exported_values(p.sample, axis);
    let t = frame_table(p, samples);
    let stacks = stack_trees(p, samples, t);
    assert forall|i: int| 0 <= i < stacks.len() implies indices_json(#[trigger] stacks[i]) == Some(
        exported_stacks(p, axis)[i],
    ) by {
        let s = positions(t, sample_frames(p, samples[i]));
        lemma_position_bounds(p, samples, i);
        assert forall|k: int| 0 <= k < s.len() implies (#[trigger] s[k]) <= i64::MAX by {
            assert(positions(t, sample_frames(p, samples[i]))[k] < t.len());
        }
        lemma_positions_read_back(s);
    }
    assert(Seq::new(stacks.len(), |i: int| indices_json(stacks[i]).unwrap()) =~= exported_stacks(p, axis));
    let weights = weight_trees(w);
    assert(Seq::new(weights.len(), |i: int| as_bits(weights[i]).unwrap()) =~= Seq::new(
        w.len(),
        |i: int| int_bits(w[i]),
    ));
    let inner = sampled_members(p, axis, opts.profile_name@, end);
    lemma_sampled_keys();
    lemma_member(inner, 0);
    lemma_member(inner, 1);
    lemma_member(inner, 2);
    lemma_member(inner, 3);
    lemma_member(inner, 4);
    lemma_member(inner, 5);
    lemma_member(inner, 6);
    let one = JsonView::Object(inner);
    assert(sampled_json(one) == Some(exported_file(p, axis, as_bits(end).unwrap()).profiles[0]));
    let list = seq![one];
    assert(list[0] == one);
    assert(Seq::new(list.len(), |i: int| sampled_json(list[i]).unwrap()) =~= exported_file(p, axis, as_bits(end).unwrap()).profiles);
    lemma_frames_read_back(t);
    let shared = seq![("frames"@, JsonView::Array(frame_trees(t)))];
    lemma_member(shared, 0);
    assert(shared_json(Some(JsonView::Object(shared))) == Some(t));
    let m = file_members(p, axis, opts, end);
    lemma_file_keys();
    lemma_member(m, 0);
    lemma_member(m, 1);
    lemma_member(m, 2);
    lemma_member(m, 3);
    lemma_member(m, 4);
    lemma_member(m, 5);
}

proof fn lemma_exported(samples: Seq<SampleView>, axis: int)
    ensures
        forall|i: int|
            0 <= i < exported(samples, axis).len() ==> value_at(#[trigger] exported(samples, axis)[i], axis) > 0
                && exported(samples, axis)[i].location_id.len() > 0,
    decreases samples.len(),
{
    if samples.len() > 0 {
        lemma_exported(samples.drop_last(), axis);
        let front = exported(samples.drop_last(), axis);
        let all = exported(samples, axis);
        assert forall|i: int| 0 <= i < all.len() implies value_at(#[trigger] all[i], axis) > 0
            && all[i].location_id.len() > 0 by {
            if i < front.len() {
                assert(all[i] == front[i]);
            }
        }
    }
}

/// A stack as location ids, innermost frame first.
pub open spec fn leaf_first(stack: Seq<usize>) -> Seq<u64> {
    Seq::new(stack.len(), |i: int| (stack[stack.len() - 1 - i] + 1) as u64)
}

proof fn lemma_kept_ids(stack: Seq<usize>, frames: nat)
    requires
        forall|i: int| 0 <= i < stack.len() ==> (#[trigger] stack[i]) < frames,
    ensures
        kept_ids(stack, frames) == leaf_first(stack),
    decreases stack.len(),
{
    if stack.len() > 0 {
        let front = stack.drop_last();
        assert forall|i: int| 0 <= i < front.len() implies (#[trigger] front[i]) < frames by {
            assert(stack[i] < frames);
        }
        lemma_kept_ids(front, frames);
        assert(stack[stack.len() - 1] < frames);
        assert(kept_ids(stack, frames) =~= leaf_first(stack));
    } else {
        assert(kept_ids(stack, frames) =~= leaf_first(stack));
    }
}

proof fn lemma_weighed(stacks: Seq<Seq<usize>>, weights: Seq<u64>, w: Seq<i64>, frames: nat)
    requires
        stacks.len() <= w.len(),
        w.len() == weights.len(),
        forall|i: int| 0 <= i < w.len() ==> weight_of(weights[i]) == #[trigger] w[i] && w[i] > 0,
        forall|i: int| 0 <= i < stacks.len() ==> (#[trigger] stacks[i]).len() > 0,
        forall|i: int, k: int| 0 <= i < stacks.len() && 0 <= k < stacks[i].len() ==> (#[trigger] stacks[i][k]) < frames,
    ensures
        weighed(stacks, weights, frames).len() == stacks.len(),
        forall|i: int|
            0 <= i < stacks.len() ==> (#[trigger] weighed(stacks, weights, frames)[i]) == (
                leaf_first(stacks[i]),
                w[i],
            ),
    decreases stacks.len(),
{
    if stacks.len() > 0 {
        let front = stacks.drop_last();
        assert forall|i: int, k: int| 0 <= i < front.len() && 0 <= k < front[i].len() implies (#[trigger] front[i][k])
            < frames by {
            assert(stacks[i][k] < frames);
        }
        assert forall|i: int| 0 <= i < front.len() implies (#[trigger] front[i]).len() > 0 by {
            assert(stacks[i].len() > 0);
        }
        lemma_weighed(front, weights, w, frames);
        let n = stacks.len() - 1;
        assert(stacks[n].len() > 0);
        assert forall|k: int| 0 <= k < stacks[n].len() implies (#[trigger] stacks[n][k]) < frames by {}
        lemma_kept_ids(stacks[n], frames);
        assert(weight_of(weights[n]) == w[n]);
        let all = weighed(stacks, weights, frames);
        assert forall|i: int| 0 <= i < stacks.len() implies (#[trigger] all[i]) == (leaf_first(stacks[i]), w[i]) by {
            if i < n {
                assert(all[i] == weighed(front, weights, frames)[i]);
            }
        }
    }
}

proof fn lemma_value_total(v: Seq<SampleView>, w: Seq<i64>)
    requires
        v.len() == w.len(),
        forall|i: int| 0 <= i < v.len() ==> (#[trigger] v[i]).value[1] == w[i],
    ensures
        value_sum(v, 1) == total(w),
    decreases v.len(),
{
    if v.len() > 0 {
        assert(v[v.len() - 1].value[1] == w[v.len() - 1]);
        assert forall|i: int| 0 <= i < v.drop_last().len() implies (#[trigger] v.drop_last()[i]).value[1]
            == w.drop_last()[i] by {
            assert(v[i].value[1] == w[i]);
        }
        lemma_value_total(v.drop_last(), w.drop_last());
    }
}

/// A profile that goes to Speedscope and back keeps each exported sample: its value, and its
/// stack, innermost frame first, as places in the table of frames. So the total stays the
/// same. The weights of `file` are doubles that hold the values exactly.
pub proof fn law_speedscope_samples_kept(
    p: ProfileView,
    axis: int,
    file: SampledProfileView,
    mapping: Seq<char>,
)
    requires
        frame_table(p, exported(p.sample, axis)).len() <= i64::MAX,
        frame_table(p, exported(p.sample, axis)).len() <= usize::MAX,
        file.samples == exported_stacks(p, axis),
        file.weights.len() == exported(p.sample, axis).len(),
        forall|i: int|
            0 <= i < file.weights.len() ==> weight_of(#[trigger] file.weights[i]) == exported_values(
                p.sample,
                axis,
            )[i],
    ensures
        ({
            let samples = exported(p.sample, axis);
            let t = frame_table(p, samples);
            let out = speedscope_profile(t, file, mapping).sample;
            &&& out.len() == samples.len()
            &&& forall|i: int| #![trigger out[i]]
                0 <= i < out.len() ==> out[i].value == seq![1i64, value_at(samples[i], axis)] && out[i].location_id
                    == Seq::new(
                    sample_frames(p, samples[i]).len(),
                    |k: int| place(t, sample_frames(p, samples[i])[sample_frames(p, samples[i]).len() - 1 - k]),
                )
            &&& value_sum(out, 1) == total(exported_values(p.sample, axis))
        }),
{
    let samples = exported(p.sample, axis);
    let t = frame_table(p, samples);
    let w = exported_values(p.sample, axis);
    let stacks = exported_stacks(p, axis);
    lemma_exported(p.sample, axis);
    assert forall|i: int| 0 <= i < w.len() implies weight_of(file.weights[i]) == #[trigger] w[i] && w[i] > 0 by {
        assert(value_at(samples[i], axis) > 0);
        assert(weight_of(file.weights[i]) == exported_values(p.sample, axis)[i]);
    }
    assert forall|i: int| 0 <= i < stacks.len() implies (#[trigger] stacks[i]).len() > 0 by {
        assert(samples[i].location_id.len() > 0);
    }
    assert forall|i: int, k: int| 0 <= i < stacks.len() && 0 <= k < stacks[i].len() implies (#[trigger] stacks[i][k])
        < t.len() by {
        lemma_position_bounds(p, samples, i);
        assert(positions(t, sample_frames(p, samples[i]))[k] < t.len());
    }
    lemma_weighed(stacks, file.weights, w, t.len());
    let out = speedscope_profile(t, file, mapping).sample;
    assert forall|i: int| #![trigger out[i]] 0 <= i < out.len() implies out[i].value == seq![
        1i64,
        value_at(samples[i], axis),
    ] && out[i].location_id == Seq::new(
        sample_frames(p, samples[i]).len(),
        |k: int| place(t, sample_frames(p, samples[i])[sample_frames(p, samples[i]).len() - 1 - k]),
    ) by {
        let fs = sample_frames(p, samples[i]);
        let v = weighed(stacks, file.weights, t.len());
        assert(v[i] == (leaf_first(stacks[i]), w[i]));
        lemma_position_bounds(p, samples, i);
        assert(out[i].value =~= seq![1i64, value_at(samples[i], axis)]);
        let want = Seq::new(fs.len(), |k: int| place(t, fs[fs.len() - 1 - k]));
        assert forall|k: int| 0 <= k < fs.len() implies leaf_first(stacks[i])[k] == want[k] by {
            assert(positions(t, fs)[fs.len() - 1 - k] == t.index_of(fs[fs.len() - 1 - k]));
        }
        assert(out[i].location_id =~= want);
    }
    assert forall|i: int| 0 <= i < out.len() implies (#[trigger] out[i]).value[1] == w[i] by {}
    lemma_value_total(out, w);
}

/// A frame as a profile shows it: it has a name, and what it lacks is missing rather than
/// empty.
pub open spec fn is_shown(f: FrameView) -> bool {
    &&& f.name.len() > 0
    &&& f.file matches Some(s) ==> s.len() > 0
    &&& f.line matches Some(n) ==> n > 0
    &&& f.col matches Some(n) ==> n > 0
}

proof fn lemma_frame_is_shown(p: ProfileView, id: u64)
    ensures
        is_shown(frame_at(p, id)),
{
    reveal_strlit("location:");
    reveal_strlit("0x");
    reveal_strlit("function:");
    reveal_strlit("(unknown)");
}

proof fn lemma_entered_shown(t: Seq<FrameView>, fs: Seq<FrameView>)
    requires
        t.no_duplicates(),
        forall|i: int| 0 <= i < t.len() ==> is_shown(#[trigger] t[i]),
        forall|i: int| 0 <= i < fs.len() ==> is_shown(#[trigger] fs[i]),
    ensures
        frames_entered(t, fs).no_duplicates(),
        forall|i: int| 0 <= i < frames_entered(t, fs).len() ==> is_shown(#[trigger] frames_entered(t, fs)[i]),
    decreases fs.len(),
{
    if fs.len() > 0 {
        let front = fs.drop_last();
        assert forall|i: int| 0 <= i < front.len() implies is_shown(#[trigger] front[i]) by {
            assert(is_shown(fs[i]));
        }
        lemma_entered_shown(t, front);
        let u = frames_entered(t, front);
        law_entered(u, fs.last());
        assert(is_shown(fs[fs.len() - 1]));
        let r = frames_entered(t, fs);
        assert forall|i: int| 0 <= i < r.len() implies is_shown(#[trigger] r[i]) by {
            if i < u.len() {
                assert(r[i] == u[i]);
            }
        }
    }
}

proof fn lemma_table_shown(p: ProfileView, samples: Seq<SampleView>)
    ensures
        frame_table(p, samples).no_duplicates(),
        forall|i: int| 0 <= i < frame_table(p, samples).len() ==> is_shown(#[trigger] frame_table(p, samples)[i]),
    decreases samples.len(),
{
    if samples.len() > 0 {
        lemma_table_shown(p, samples.drop_last());
        let fs = sample_frames(p, samples.last());
        assert forall|i: int| 0 <= i < fs.len() implies is_shown(#[trigger] fs[i]) by {
            let ids = samples.last().location_id;
            lemma_frame_is_shown(p, ids[ids.len() - 1 - i]);
        }
        lemma_entered_shown(frame_table(p, samples.drop_last()), fs);
    }
}

/// The keys of the first functions.
spec fn number_keys(n: nat) -> Seq<Seq<char>> {
    Seq::new(n, |i: int| dec(i as nat))
}

/// The tables of frames as a profile shows them show these frames.
proof fn lemma_tabled(t: TablesView, frames: Seq<FrameView>)
    requires
        shows(t, Seq::empty()),
        t.keys.len() == 0,
        forall|i: int| 0 <= i < frames.len() ==> is_shown(#[trigger] frames[i]),
        frames.len() <= i64::MAX,
    ensures
        shows(frames_tabled(t, frames), frames),
        frames_tabled(t, frames).keys == number_keys(frames.len()),
    decreases frames.len(),
{
    if frames.len() == 0 {
        assert(frames =~= Seq::empty());
        assert(t.keys =~= number_keys(0));
    } else {
        let front = frames.drop_last();
        assert forall|i: int| 0 <= i < front.len() implies is_shown(#[trigger] front[i]) by {
            assert(is_shown(frames[i]));
        }
        lemma_tabled(t, front);
        let before = frames_tabled(t, front);
        let n = front.len();
        let f = frames.last();
        assert(is_shown(frames[n as int]));
        let key = dec(n);
        if before.keys.contains(key) {
            let k = choose|k: int| 0 <= k < before.keys.len() && before.keys[k] == key;
            law_decimal_round_trip(k as nat);
            law_decimal_round_trip(n);
        }
        let line = or_zero(f.line);
        lemma_shows_one_more(
            before,
            front,
            key,
            (shown_name(f.name), shown_name(f.name), or_no_text(f.file)),
            line,
            line,
            or_zero(f.col),
        );
        assert(entry_frame(shown_name(f.name), or_no_text(f.file), line, line, or_zero(f.col)) =~= f);
        assert(front.push(f) =~= frames);
        assert(frames_tabled(t, frames).keys =~= number_keys(frames.len()));
    }
}

/// A sample of an exported file shows the frames that it was exported with.
proof fn lemma_frames_kept(p: ProfileView, axis: int, file: SampledProfileView, mapping: Seq<char>)
    requires
        frame_table(p, exported(p.sample, axis)).len() <= i64::MAX,
        frame_table(p, exported(p.sample, axis)).len() <= usize::MAX,
        file.samples == exported_stacks(p, axis),
        file.weights.len() == exported(p.sample, axis).len(),
        forall|i: int|
            0 <= i < file.weights.len() ==> weight_of(#[trigger] file.weights[i]) == exported_values(
                p.sample,
                axis,
            )[i],
        speedscope_profile(frame_table(p, exported(p.sample, axis)), file, mapping).string_table.len() <= i64::MAX,
    ensures
        ({
            let samples = exported(p.sample, axis);
            let q = speedscope_profile(frame_table(p, samples), file, mapping);
            forall|i: int|
                0 <= i < samples.len() ==> sample_frames(q, #[trigger] q.sample[i]) == sample_frames(p, samples[i])
        }),
{
    let samples = exported(p.sample, axis);
    let t = frame_table(p, samples);
    let q = speedscope_profile(t, file, mapping);
    law_speedscope_samples_kept(p, axis, file, mapping);
    let (ty, unit) = value_type_of(file.unit);
    let start = start_tables("samples"@, "count"@, ty, unit, mapping);
    lemma_start_tables("samples"@, "count"@, ty, unit, mapping);
    assert(shows(start, Seq::empty()));
    lemma_table_shown(p, samples);
    lemma_tabled(start, t);
    let tables = frames_tabled(start, t);
    assert forall|i: int| 0 <= i < samples.len() implies sample_frames(q, #[trigger] q.sample[i]) == sample_frames(
        p,
        samples[i],
    ) by {
        let fs = sample_frames(p, samples[i]);
        let s = q.sample[i];
        lemma_position_bounds(p, samples, i);
        assert forall|k: int| 0 <= k < s.location_id.len() implies 1 <= #[trigger] s.location_id[k] <= t.len()
            && t[s.location_id[k] - 1] == fs[fs.len() - 1 - k] by {
            assert(s.location_id[k] == place(t, fs[fs.len() - 1 - k]));
            assert(positions(t, fs)[fs.len() - 1 - k] < t.len());
        }
        lemma_sample_shown(q, tables, t, s);
        assert(sample_frames(q, s) =~= fs);
    }
}

/// What reads as an exported file is that file, but for its end.
proof fn lemma_read_but_end(p: ProfileView, axis: int, opts: SpeedscopeExportOptions, j: JsonView) -> (end: JsonView)
    requires
        are_short(exported_values(p.sample, axis)),
        reads_as(j, JsonView::Object(file_members(p, axis, opts, end_tree(p, axis)))),
    ensures
        j == JsonView::Object(file_members(p, axis, opts, end)),
        as_bits(end) is Some,
        is_short(total(exported_values(p.sample, axis))) && is_i64(total(exported_values(p.sample, axis))) ==> end
            == end_tree(p, axis),
{
    let samples = exported(p.sample, axis);
    let w = exported_values(p.sample, axis);
    let table = frame_table(p, samples);
    let m = file_members(p, axis, opts, end_tree(p, axis));
    let o = j->Object_0;
    assert forall|i: int| 0 <= i < 6 implies o[i].0 == (#[trigger] m[i]).0 && reads_as(o[i].1, m[i].1) by {}
    lemma_shared_plain(table);
    law_plain_read_back(o[4].1, m[4].1, 63);
    assert(m[0].1 is Text && m[1].1 is Text && m[3].1 is Text);
    assert(o[0] == m[0] && o[1] == m[1] && o[3] == m[3]);
    assert(reads_as(o[2].1, m[2].1));
    assert(o[2] == m[2]);
    let list = o[5].1->Array_0;
    let inner = sampled_members(p, axis, opts.profile_name@, end_tree(p, axis));
    let held = m[5].1->Array_0;
    assert(held[0] == JsonView::Object(inner));
    assert(reads_as(list[0], held[0]));
    let q = list[0]->Object_0;
    assert forall|i: int| 0 <= i < 7 implies q[i].0 == (#[trigger] inner[i]).0 && reads_as(q[i].1, inner[i].1) by {}
    lemma_stacks_plain(p, samples);
    lemma_weights_plain(w);
    law_plain_read_back(q[5].1, inner[5].1, 61);
    law_plain_read_back(q[6].1, inner[6].1, 61);
    assert(is_short_double(double_json(0)));
    assert(reads_as(q[3].1, inner[3].1));
    assert(inner[0].1 is Text && inner[1].1 is Text && inner[2].1 is Text);
    assert(q[0] == inner[0] && q[1] == inner[1] && q[2] == inner[2]);
    let end = q[4].1;
    assert(reads_as(end, inner[4].1));
    if is_short(total(w)) && is_i64(total(w)) {
        assert(is_short_double(double_json(total(w) as i64)));
    }
    assert(q =~= sampled_members(p, axis, opts.profile_name@, end));
    assert(list =~= seq![JsonView::Object(q)]);
    assert(o =~= file_members(p, axis, opts, end));
    end
}

/// A profile that goes to Speedscope and back keeps each exported sample: its value, and its
/// frames with their names, files, lines and columns. The counts of both ways agree, and where
/// the sum of the values is short, the duration is that sum. Only compression may still fail.
/// The values are short.
pub proof fn law_speedscope_round_trip(
    p: ProfileView,
    axis: int,
    opts: SpeedscopeExportOptions,
    out: (String, ExportStats),
    back: SpeedscopeImportOptions,
    r: Result<EncodedPprof, SpeedscopeError>,
)
    requires
        axis_of(p, opts.value_index) == Ok::<int, ExportError>(axis),
        exported_as(p, opts, Ok(out)),
        are_short(exported_values(p.sample, axis)),
        frame_table(p, exported(p.sample, axis)).len() <= i64::MAX,
        frame_table(p, exported(p.sample, axis)).len() <= usize::MAX,
        back.profile_index == 0,
        text_imported(out.0@, back, r),
    ensures
        r is Err ==> r == Err::<EncodedPprof, SpeedscopeError>(SpeedscopeError::Compress),
        r matches Ok(e) ==> {
            let samples = exported(p.sample, axis);
            let sum = total(exported_values(p.sample, axis));
            &&& e.stats.samples == out.1.stacks
            &&& e.stats.total == out.1.total
            &&& loaded(e.encoded@) matches Ok(q) && {
                &&& q.sample.len() == samples.len()
                &&& is_short(sum) ==> q.duration_nanos == clamped(
                    sum * unit_nanos(text_at(p.string_table, p.sample_type[axis].unit)),
                )
                &&& forall|i: int|
                    0 <= i < samples.len() ==> (#[trigger] q.sample[i]).value == seq![
                        1i64,
                        value_at(samples[i], axis),
                    ]
                &&& q.string_table.len() <= i64::MAX ==> forall|i: int|
                    0 <= i < samples.len() ==> sample_frames(q, #[trigger] q.sample[i]) == sample_frames(p, samples[i])
            }
        },
{
    let samples = exported(p.sample, axis);
    let w = exported_values(p.sample, axis);
    let t = frame_table(p, samples);
    let j = text_json(out.0@).unwrap();
    let end = lemma_read_but_end(p, axis, opts, j);
    let file = exported_file(p, axis, as_bits(end).unwrap());
    let one = file.profiles[0];
    law_speedscope_read_back(p, axis, opts, end);
    lemma_exported(p.sample, axis);
    assert forall|i: int| 0 <= i < w.len() implies weight_of(#[trigger] one.weights[i]) == w[i] by {
        assert(is_short(w[i] as int));
        assert(value_at(samples[i], axis) > 0);
        law_exact(int_bits(w[i]), int_bits(0), w[i] as nat);
    }
    law_speedscope_samples_kept(p, axis, one, back.mapping_filename@);
    lemma_weight_total(p, axis, one);
    assert forall|i: int| 0 <= i < w.len() implies #[trigger] w[i] > 0 by {
        assert(value_at(samples[i], axis) > 0);
    }
    lemma_total_positive(w);
    if is_short(total(w)) {
        law_exact(int_bits(total(w) as i64), int_bits(0), total(w) as nat);
    }
    if let Ok(e) = r {
        let q = speedscope_profile(t, one, back.mapping_filename@);
        if q.string_table.len() <= i64::MAX {
            lemma_frames_kept(p, axis, one, back.mapping_filename@);
        }
    }
}

proof fn lemma_total_positive(w: Seq<i64>)
    requires
        forall|i: int| 0 <= i < w.len() ==> #[trigger] w[i] > 0,
    ensures
        total(w) >= 0,
    decreases w.len(),
{
    if w.len() > 0 {
        let front = w.drop_last();
        assert forall|i: int| 0 <= i < front.len() implies #[trigger] front[i] > 0 by {
            assert(w[i] > 0);
        }
        lemma_total_positive(front);
        assert(w[w.len() - 1] > 0);
    }
}

/// The weights of a file that was exported add up to the values.
proof fn lemma_weight_total(p: ProfileView, axis: int, file: SampledProfileView)
    requires
        frame_table(p, exported(p.sample, axis)).len() <= i64::MAX,
        frame_table(p, exported(p.sample, axis)).len() <= usize::MAX,
        file.samples == exported_stacks(p, axis),
        file.weights.len() == exported(p.sample, axis).len(),
        forall|i: int|
            0 <= i < file.weights.len() ==> weight_of(#[trigger] file.weights[i]) == exported_values(
                p.sample,
                axis,
            )[i],
    ensures
        weight_total(weighed(file.samples, file.weights, frame_table(p, exported(p.sample, axis)).len())) == total(
            exported_values(p.sample, axis),
        ),
{
    let t = frame_table(p, exported(p.sample, axis));
    let v = weighed(file.samples, file.weights, t.len());
    let q = speedscope_profile(t, file, Seq::empty());
    law_speedscope_samples_kept(p, axis, file, Seq::empty());
    lemma_sum_of_values(v, q.sample);
}

proof fn lemma_sum_of_values(v: Seq<(Seq<u64>, i64)>, s: Seq<SampleView>)
    requires
        v.len() == s.len(),
        forall|i: int| 0 <= i < v.len() ==> (#[trigger] s[i]).value[1] == v[i].1,
    ensures
        weight_total(v) == value_sum(s, 1),
    decreases v.len(),
{
    let all = Seq::new(v.len(), |i: int| v[i].1 as int);
    if v.len() > 0 {
        let front = v.drop_last();
        let rest = s.drop_last();
        assert forall|i: int| 0 <= i < front.len() implies (#[trigger] rest[i]).value[1] == front[i].1 by {
            assert(s[i].value[1] == v[i].1);
        }
        lemma_sum_of_values(front, rest);
        assert(all.drop_last() =~= Seq::new(front.len(), |i: int| front[i].1 as int));
        assert(s[s.len() - 1].value[1] == v[v.len() - 1].1);
    }
}

} // verus!

//! A trace that was made of a profile is always converted back.
use vstd::prelude::*;
use vstd::arithmetic::div_mod::lemma_fundamental_div_mod;
use crate::chrome_trace::{trace_converted, EncodedProfile, TraceError};
use crate::cpuprofile::{
    acyclic, chain, deltas, leaf_stack, parent_id, values_fit, BuildError, CpuNodeView, CpuProfileView,
};
use crate::demangle::{MoonBit, Verbatim};
use crate::folded_export::value_at;
use crate::gz::loaded;
use crate::json_text::text_json;
use crate::mean::mean_i64;
use crate::num::is_i64;
use crate::proto::{text_at, ProfileView, SampleView};
use crate::tally::{
    count_of, first_seen, lemma_first_seen, lemma_sum_within, sum, sum_of, tally_fits, total,
};
use crate::to_chrome_trace::{
    count_axis, kid_entered, kid_with, parts, path_entered, repeats, samples_added, to_us,
    trace_frames, ConvertOptions, TraceFrameView, TraceNodeView, TraceView,
};
use crate::trace_round_trip::{
    cpu_nodes_back, frames_fit, ids, law_counts_and_time_kept, law_trace_read_back, law_trace_totals,
    profile_back, repeat_total, us_total,
};
use crate::trace_write::{end_us, start_us, trace_tree, traced};
use crate::v8::mapping_text;

verus! {

/// Whether the nodes of a call tree come behind those that call them.
pub open spec fn descends(nodes: Seq<TraceNodeView>) -> bool {
    forall|i: int, j: int|
        0 <= i < nodes.len() && 0 <= j < nodes[i].kids.len() ==> i < (#[trigger] nodes[i].kids[j]) < nodes.len()
}

proof fn lemma_kid_with(nodes: Seq<TraceNodeView>, kids: Seq<usize>, frame: TraceFrameView)
    ensures
        kid_with(nodes, kids, frame) matches Some(i) ==> exists|j: int| 0 <= j < kids.len() && #[trigger] kids[j] == i,
    decreases kids.len(),
{
    if kids.len() > 0 {
        if nodes[kids[0] as int].frame == frame {
            assert(kids[0] == kids[0]);
        } else {
            let rest = kids.drop_first();
            lemma_kid_with(nodes, rest, frame);
            if let Some(i) = kid_with(nodes, kids, frame) {
                let j = choose|j: int| 0 <= j < rest.len() && #[trigger] rest[j] == i;
                assert(kids[j + 1] == i);
            }
        }
    }
}

proof fn lemma_kid_entered(nodes: Seq<TraceNodeView>, at: int, frame: TraceFrameView)
    requires
        descends(nodes),
        0 <= at < nodes.len(),
        kid_entered(nodes, at, frame).0.len() <= usize::MAX,
    ensures
        descends(kid_entered(nodes, at, frame).0),
        0 <= kid_entered(nodes, at, frame).1 < kid_entered(nodes, at, frame).0.len(),
{
    let kids = nodes[at].kids;
    lemma_kid_with(nodes, kids, frame);
    let (r, k) = kid_entered(nodes, at, frame);
    if let Some(i) = kid_with(nodes, kids, frame) {
        let j = choose|j: int| 0 <= j < kids.len() && #[trigger] kids[j] == i;
        assert(at < nodes[at].kids[j] < nodes.len());
    } else {
        assert forall|i: int, j: int| 0 <= i < r.len() && 0 <= j < r[i].kids.len() implies i < (
        #[trigger] r[i].kids[j]) < r.len() by {
            if i < nodes.len() && (i != at || j < kids.len()) {
                assert(r[i].kids[j] == nodes[i].kids[j]);
            }
        }
    }
}

/// Whether the nodes that are called are in the tree.
spec fn kids_within(nodes: Seq<TraceNodeView>) -> bool {
    forall|i: int, j: int|
        0 <= i < nodes.len() && 0 <= j < nodes[i].kids.len() ==> (#[trigger] nodes[i].kids[j]) < nodes.len()
}

proof fn lemma_kid_grows(nodes: Seq<TraceNodeView>, at: int, frame: TraceFrameView)
    requires
        kids_within(nodes),
        0 <= at < nodes.len(),
    ensures
        kids_within(kid_entered(nodes, at, frame).0),
        nodes.len() <= kid_entered(nodes, at, frame).0.len(),
        0 <= kid_entered(nodes, at, frame).1 < kid_entered(nodes, at, frame).0.len(),
{
    let kids = nodes[at].kids;
    lemma_kid_with(nodes, kids, frame);
    let (r, k) = kid_entered(nodes, at, frame);
    if let Some(i) = kid_with(nodes, kids, frame) {
        let j = choose|j: int| 0 <= j < kids.len() && #[trigger] kids[j] == i;
        assert(nodes[at].kids[j] < nodes.len());
    } else {
        assert forall|i: int, j: int| 0 <= i < r.len() && 0 <= j < r[i].kids.len() implies (#[trigger] r[i].kids[j])
            < r.len() by {
            if i < nodes.len() && (i != at || j < kids.len()) {
                assert(r[i].kids[j] == nodes[i].kids[j]);
            }
        }
    }
}

proof fn lemma_path_grows(nodes: Seq<TraceNodeView>, frames: Seq<TraceFrameView>)
    requires
        kids_within(nodes),
        nodes.len() > 0,
    ensures
        kids_within(path_entered(nodes, frames).0),
        nodes.len() <= path_entered(nodes, frames).0.len(),
        0 <= path_entered(nodes, frames).1 < path_entered(nodes, frames).0.len(),
    decreases frames.len(),
{
    if frames.len() > 0 {
        let (before, at) = path_entered(nodes, frames.drop_last());
        lemma_path_grows(nodes, frames.drop_last());
        lemma_kid_grows(before, at, frames.last());
    }
}

proof fn lemma_path(nodes: Seq<TraceNodeView>, frames: Seq<TraceFrameView>)
    requires
        kids_within(nodes),
        descends(nodes),
        nodes.len() > 0,
        path_entered(nodes, frames).0.len() <= usize::MAX,
    ensures
        descends(path_entered(nodes, frames).0),
    decreases frames.len(),
{
    if frames.len() > 0 {
        let (before, at) = path_entered(nodes, frames.drop_last());
        lemma_path_grows(nodes, frames.drop_last());
        lemma_kid_grows(before, at, frames.last());
        lemma_path(nodes, frames.drop_last());
        lemma_kid_entered(before, at, frames.last());
    }
}

proof fn lemma_trace_grows(
    p: ProfileView,
    samples: Seq<SampleView>,
    axis: int,
    unit: Seq<char>,
    counts: Option<int>,
    expand: bool,
)
    ensures
        kids_within(samples_added(p, samples, axis, unit, counts, expand).nodes),
        samples_added(p, samples, axis, unit, counts, expand).nodes.len() > 0,
    decreases samples.len(),
{
    if samples.len() > 0 {
        let s = samples.last();
        let before = samples_added(p, samples.drop_last(), axis, unit, counts, expand);
        lemma_trace_grows(p, samples.drop_last(), axis, unit, counts, expand);
        lemma_path_grows(before.nodes, trace_frames(p, s));
    }
}

proof fn lemma_parts(delta: i64, count: int)
    requires
        delta >= 0,
        count > 0,
    ensures
        forall|i: int| 0 <= i < parts(delta, count).len() ==> 0 <= #[trigger] parts(delta, count)[i],
{
    let q = delta as int / count;
    let r = delta as int % count;
    lemma_fundamental_div_mod(delta as int, count);
    assert(q >= 0 && q * count >= 0 && (r > 0 ==> q + 1 <= delta)) by (nonlinear_arith)
        requires
            delta == count * q + r,
            0 <= r < count,
            count > 0,
            delta >= 0,
    ;
    assert(q <= delta) by (nonlinear_arith)
        requires
            delta == count * q + r,
            0 <= r,
            q >= 0,
            count > 0,
    ;
}

/// What holds of a trace under construction.
spec fn trace_ok(t: TraceView) -> bool {
    &&& descends(t.nodes)
    &&& t.nodes.len() > 0
    &&& forall|i: int| 0 <= i < t.samples.len() ==> (#[trigger] t.samples[i]) < t.nodes.len()
    &&& forall|i: int| 0 <= i < t.deltas.len() ==> 0 <= #[trigger] t.deltas[i]
}

proof fn lemma_trace_ok(
    p: ProfileView,
    samples: Seq<SampleView>,
    axis: int,
    unit: Seq<char>,
    counts: Option<int>,
    expand: bool,
)
    requires
        samples_added(p, samples, axis, unit, counts, expand).nodes.len() <= usize::MAX,
    ensures
        trace_ok(samples_added(p, samples, axis, unit, counts, expand)),
    decreases samples.len(),
{
    let t = samples_added(p, samples, axis, unit, counts, expand);
    if samples.len() > 0 {
        let s = samples.last();
        let before = samples_added(p, samples.drop_last(), axis, unit, counts, expand);
        if value_at(s, axis) <= 0 || s.location_id.len() == 0 {
            lemma_trace_ok(p, samples.drop_last(), axis, unit, counts, expand);
        } else {
            let frames = trace_frames(p, s);
            lemma_trace_grows(p, samples.drop_last(), axis, unit, counts, expand);
            lemma_path_grows(before.nodes, frames);
            lemma_trace_ok(p, samples.drop_last(), axis, unit, counts, expand);
            lemma_path(before.nodes, frames);
            let n = repeats(s, counts, expand);
            let us = to_us(value_at(s, axis), unit);
            lemma_parts(us, n);
            assert forall|i: int| 0 <= i < t.samples.len() implies (#[trigger] t.samples[i]) < t.nodes.len() by {
                if i < before.samples.len() {
                    assert(t.samples[i] == before.samples[i]);
                }
            }
            assert forall|i: int| 0 <= i < t.deltas.len() implies 0 <= #[trigger] t.deltas[i] by {
                if i < before.deltas.len() {
                    assert(t.deltas[i] == before.deltas[i]);
                } else {
                    assert(t.deltas[i] == parts(us, n)[i - before.deltas.len()]);
                }
            }
        }
    }
}

proof fn lemma_parent(nodes: Seq<CpuNodeView>, id: i64)
    ensures
        parent_id(nodes, id) matches Some(up) ==> exists|k: int|
            0 <= k < nodes.len() && (#[trigger] nodes[k]).id == up && nodes[k].children.contains(id),
    decreases nodes.len(),
{
    if nodes.len() > 0 {
        if nodes.last().children.contains(id) {
            assert(nodes[nodes.len() - 1].children.contains(id));
        } else {
            let front = nodes.drop_last();
            lemma_parent(front, id);
            if let Some(up) = parent_id(nodes, id) {
                let k = choose|k: int|
                    0 <= k < front.len() && (#[trigger] front[k]).id == up && front[k].children.contains(id);
                assert(nodes[k] == front[k]);
            }
        }
    }
}

proof fn lemma_chain(nodes: Seq<TraceNodeView>, i: int, limit: nat)
    requires
        descends(nodes),
        nodes.len() <= i64::MAX,
        0 <= i < nodes.len(),
        i < limit,
    ensures
        chain(cpu_nodes_back(nodes), (i + 1) as i64, limit) is Some,
    decreases limit,
{
    let v = cpu_nodes_back(nodes);
    let id = (i + 1) as i64;
    lemma_parent(v, id);
    if let Some(up) = parent_id(v, id) {
        let k = choose|k: int| 0 <= k < v.len() && (#[trigger] v[k]).id == up && v[k].children.contains(id);
        let kids = nodes[k].kids;
        let j = choose|j: int| 0 <= j < ids(kids).len() && ids(kids)[j] == id;
        assert(k < nodes[k].kids[j] < nodes.len());
        lemma_chain(nodes, k, (limit - 1) as nat);
    }
}

proof fn lemma_acyclic(t: TraceView, start: i64, end: i64)
    requires
        trace_ok(t),
        t.nodes.len() <= i64::MAX,
    ensures
        acyclic(profile_back(t, start, end)),
{
    let p = profile_back(t, start, end);
    lemma_first_seen(p.samples);
    assert forall|i: int| 0 <= i < first_seen(p.samples).len() implies leaf_stack(
        p.nodes,
        #[trigger] first_seen(p.samples)[i],
    ) is Some by {
        let leaf = first_seen(p.samples)[i];
        assert(first_seen(p.samples).contains(leaf));
        assert(p.samples.contains(leaf));
        let j = choose|j: int| 0 <= j < p.samples.len() && p.samples[j] == leaf;
        assert(t.samples[j] < t.nodes.len());
        lemma_chain(t.nodes, t.samples[j] as int, t.nodes.len());
    }
}

/// Whether the mean time between samples fits in 64 bits as nanoseconds.
pub open spec fn mean_fits(sum: int, n: nat) -> bool {
    n > 0 ==> is_i64(mean_i64(sum, n) * 1000)
}

/// Times that are not below zero, and whose sum and mean fit in 64 bits as nanoseconds, fit
/// for each leaf.
pub proof fn law_values_fit(p: CpuProfileView)
    requires
        forall|i: int| 0 <= i < deltas(p).len() ==> 0 <= #[trigger] deltas(p)[i],
        total(deltas(p)) * 1000 <= i64::MAX,
        mean_fits(total(deltas(p)), p.samples.len()),
        p.samples.len() <= i64::MAX,
    ensures
        values_fit(p),
{
    let w = deltas(p);
    let s = p.samples;
    assert forall|i: int| 0 <= i < first_seen(s).len() implies count_of(s, #[trigger] first_seen(s)[i]) <= i64::MAX
        && 0 <= sum_of(s, w, first_seen(s)[i]) <= total(w) by {
        lemma_sum_within(s, w, first_seen(s)[i]);
    }
    assert(tally_fits(s, w));
    if s.len() > 0 {
        lemma_sum_within(s, w, s[0]);
    }
}

/// A profile that was converted to a trace with expanded samples is converted back, with its
/// sample counts and its time: those of the result add up to those of the samples that have
/// a stack and a value above zero, in whole microseconds. The text is what was printed for
/// the trace. Only compression may still fail.
pub proof fn law_trace_converted_back(
    p: ProfileView,
    axis: int,
    opts: ConvertOptions,
    text: Seq<char>,
    back: crate::chrome_trace::ConvertOptions,
    r: Result<EncodedProfile, TraceError>,
)
    requires
        0 <= axis < p.sample_type.len(),
        text_json(text) == Some(
            trace_tree(
                traced(p, axis, opts),
                opts,
                start_us(p),
                end_us(p, total(traced(p, axis, opts).deltas)),
            ),
        ),
        traced(p, axis, opts).nodes.len() <= i64::MAX,
        traced(p, axis, opts).nodes.len() <= usize::MAX,
        traced(p, axis, opts).samples.len() <= i64::MAX,
        total(traced(p, axis, opts).deltas) * 1000 <= i64::MAX,
        mean_fits(total(traced(p, axis, opts).deltas), traced(p, axis, opts).samples.len()),
        frames_fit(traced(p, axis, opts).nodes),
        back.profile_index == 0,
        trace_converted(text, back, r),
    ensures
        r is Err ==> r == Err::<EncodedProfile, TraceError>(TraceError::Build(BuildError::Compress)),
        r matches Ok(e) ==> (loaded(e.encoded@) matches Ok(out) && sum(
            Seq::new(out.sample.len(), |i: int| out.sample[i].value[0] as int),
        ) == repeat_total(p.sample, axis, count_axis(p, opts.count_index), opts.expand_samples) && sum(
            Seq::new(out.sample.len(), |i: int| out.sample[i].value[1] as int),
        ) == us_total(p.sample, axis, text_at(p.string_table, p.sample_type[axis].unit)) * 1000),
{
    let t = traced(p, axis, opts);
    let unit = text_at(p.string_table, p.sample_type[axis].unit);
    let default = back.default_sample_delta_us;
    let mapping = mapping_text(back.mapping_filename);
    let start = start_us(p);
    let end = end_us(p, total(t.deltas));
    let counts = count_axis(p, opts.count_index);
    lemma_trace_ok(p, p.sample, axis, unit, counts, opts.expand_samples);
    law_trace_totals(p, p.sample, axis, unit, counts, opts.expand_samples);
    lemma_total_not_negative(t.deltas);
    law_trace_read_back(t, opts, start, end, default);
    let q = profile_back(t, start, end);
    assert(deltas(q) =~= t.deltas);
    law_values_fit(q);
    lemma_acyclic(t, start, end);
    if back.no_demangle {
        law_counts_and_time_kept(p, axis, opts, text, default, mapping, Verbatim);
    } else {
        law_counts_and_time_kept(p, axis, opts, text, default, mapping, MoonBit);
    }
}

proof fn lemma_total_not_negative(w: Seq<i64>)
    requires
        forall|i: int| 0 <= i < w.len() ==> 0 <= #[trigger] w[i],
    ensures
        total(w) >= 0,
    decreases w.len(),
{
    if w.len() > 0 {
        let front = w.drop_last();
        assert forall|i: int| 0 <= i < front.len() implies 0 <= #[trigger] front[i] by {
            assert(w[i] >= 0);
        }
        lemma_total_not_negative(front);
        assert(w[w.len() - 1] >= 0);
    }
}

} // verus!

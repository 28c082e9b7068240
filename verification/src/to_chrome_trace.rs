//! pprof CPU profiles as the call tree and the samples of a V8 CPU profile.
use vstd::prelude::*;
use crate::folded_export::{sample_value, value_at};
use crate::num::{clamp, clamped};
use crate::proto::{string_at, text_at, Profile, ProfileView, Sample, SampleView, ValueType};
use crate::resolve::{function_with, location_with, ProfileIndex};
use crate::tally::total;
use crate::text::{append_decimal, append_hex, dec, hex};

verus! {

/// Options of a conversion.
#[derive(Debug)]
pub struct ConvertOptions {
    /// Index of the sample value that holds the time. The first CPU or wall time axis
    /// where none is given.
    pub value_index: Option<usize>,
    /// Index of the sample value that holds the count, where samples are expanded. The
    /// first `samples/count` axis where none is given.
    pub count_index: Option<usize>,
    /// Repeat each sample as often as it was counted, so that a profile that is
    /// converted to a trace and back keeps its counts.
    pub expand_samples: bool,
    /// Process id in the trace.
    pub pid: i64,
    /// Thread id in the trace.
    pub tid: i64,
    /// Profile id in the trace.
    pub profile_id: String,
}

impl Default for ConvertOptions {
    fn default() -> (r: ConvertOptions)
        ensures
            r.value_index is None,
            r.count_index is None,
            !r.expand_samples,
            r.pid == 1,
            r.tid == 1,
            r.profile_id@ == "0x1"@,
    {
        ConvertOptions {
            value_index: None,
            count_index: None,
            expand_samples: false,
            pid: 1,
            tid: 1,
            profile_id: "0x1".to_owned(),
        }
    }
}

/// Counts of what a conversion produced.
#[derive(Clone, Copy, Debug, PartialEq, Eq, Structural)]
pub struct Stats {
    /// Number of nodes.
    pub nodes: usize,
    /// Number of samples.
    pub samples: usize,
    /// Sum of the times between samples, in microseconds.
    pub total_delta_us: i64,
}

/// Why a profile was not converted.
#[derive(Clone, Copy, Debug, PartialEq, Eq, Structural)]
pub enum TraceError {
    /// The profile has fewer sample types than the index asks for.
    ValueIndex { index: usize, types: usize },
    /// No sample type is one of CPU or wall time in a unit of time.
    NoAxis,
    /// One sample would be repeated more often than is sensible.
    TooManySamples,
    /// No sample has a stack and a value above zero.
    NoSamples,
    /// The times add up to more than 64 bits hold.
    Overflow,
    /// The trace could not be printed.
    Json,
}

/// The most repetitions of one sample.
pub const MAX_EXPANSION: i64 = 10_000_000;

pub open spec fn is_time_unit(unit: Seq<char>) -> bool {
    unit == "nanoseconds"@ || unit == "microseconds"@ || unit == "milliseconds"@ || unit == "seconds"@
}

/// Whether a sample type is one of CPU or wall time in a unit of time.
pub open spec fn is_time_axis(p: ProfileView, t: ValueType) -> bool {
    let ty = text_at(p.string_table, t.ty);
    (ty == "cpu"@ || ty == "wall"@) && is_time_unit(text_at(p.string_table, t.unit))
}

/// The first time axis from `i` on.
pub open spec fn first_time_axis(p: ProfileView, i: int) -> Option<int>
    decreases p.sample_type.len() - i,
{
    if 0 <= i < p.sample_type.len() {
        if is_time_axis(p, p.sample_type[i]) {
            Some(i)
        } else {
            first_time_axis(p, i + 1)
        }
    } else {
        None
    }
}

/// The index of the value that holds the time.
pub open spec fn time_axis(p: ProfileView, explicit: Option<usize>) -> Result<int, TraceError> {
    match explicit {
        Some(i) => if i < p.sample_type.len() {
            Ok(i as int)
        } else {
            Err(TraceError::ValueIndex { index: i, types: p.sample_type.len() as usize })
        },
        None => match first_time_axis(p, 0) {
            Some(i) => Ok(i),
            None => Err(TraceError::NoAxis),
        },
    }
}

/// The first `samples/count` axis from `i` on.
pub open spec fn first_count_axis(p: ProfileView, i: int) -> Option<int>
    decreases p.sample_type.len() - i,
{
    if 0 <= i < p.sample_type.len() {
        if text_at(p.string_table, p.sample_type[i].ty) == "samples"@ && text_at(
            p.string_table,
            p.sample_type[i].unit,
        ) == "count"@ {
            Some(i)
        } else {
            first_count_axis(p, i + 1)
        }
    } else {
        None
    }
}

/// The index of the value that holds the count.
pub open spec fn count_axis(p: ProfileView, explicit: Option<usize>) -> Option<int> {
    match explicit {
        Some(i) => Some(i as int),
        None => first_count_axis(p, 0),
    }
}

/// A value above zero in microseconds, at least 1. Nanoseconds are rounded, and any
/// other unit is taken for microseconds.
pub open spec fn to_us(raw: i64, unit: Seq<char>) -> i64 {
    let us = if unit == "nanoseconds"@ {
        ((raw + 500) / 1000) as i64
    } else if unit == "milliseconds"@ {
        clamped(raw * 1000)
    } else if unit == "seconds"@ {
        clamped(raw * 1_000_000)
    } else {
        raw
    };
    if us < 1 {
        1
    } else {
        us
    }
}

/// `delta` in `count` parts, the larger ones first.
pub open spec fn parts(delta: i64, count: int) -> Seq<i64> {
    Seq::new(
        count as nat,
        |i: int|
            (delta as int / count + if i < delta as int % count {
                1int
            } else {
                0
            }) as i64,
    )
}

/// A frame of the call tree.
#[derive(Debug)]
pub struct TraceFrame {
    pub function_name: String,
    pub url: String,
    /// Zero-based line number, or -1 if unknown.
    pub line_number: i64,
    /// Zero-based column number, or -1 if unknown.
    pub column_number: i64,
}

/// The value of a [`TraceFrame`].
#[verifier::ext_equal]
pub struct TraceFrameView {
    pub function_name: Seq<char>,
    pub url: Seq<char>,
    pub line_number: i64,
    pub column_number: i64,
}

impl View for TraceFrame {
    type V = TraceFrameView;

    open spec fn view(&self) -> TraceFrameView {
        TraceFrameView {
            function_name: self.function_name@,
            url: self.url@,
            line_number: self.line_number,
            column_number: self.column_number,
        }
    }
}

/// A frame with a name and nothing else.
pub open spec fn unknown_frame(name: Seq<char>) -> TraceFrameView {
    TraceFrameView { function_name: name, url: Seq::empty(), line_number: -1i64, column_number: -1i64 }
}

/// The frame of a location: that of its first line, or a made-up name where the
/// location, its line or its function is missing.
pub open spec fn trace_frame_at(p: ProfileView, loc_id: u64) -> TraceFrameView {
    match location_with(p.location, loc_id) {
        None => unknown_frame("location:"@ + dec(loc_id as nat)),
        Some(i) => {
            let loc = p.location[i];
            if loc.line.len() == 0 {
                unknown_frame("0x"@ + hex(loc.address as nat))
            } else {
                let line = loc.line[0];
                match function_with(p.function, line.function_id) {
                    None => unknown_frame("function:"@ + dec(line.function_id as nat)),
                    Some(k) => {
                        let func = p.function[k];
                        let name = text_at(p.string_table, func.name);
                        TraceFrameView {
                            function_name: if name.len() == 0 {
                                "(unknown)"@
                            } else {
                                name
                            },
                            url: text_at(p.string_table, func.filename),
                            line_number: if line.line > 0 {
                                (line.line - 1) as i64
                            } else if func.start_line > 0 {
                                (func.start_line - 1) as i64
                            } else {
                                -1i64
                            },
                            column_number: if line.column > 0 {
                                line.column
                            } else {
                                0
                            },
                        }
                    },
                }
            }
        },
    }
}

/// The frames of a sample, root first.
pub open spec fn trace_frames(p: ProfileView, s: SampleView) -> Seq<TraceFrameView> {
    Seq::new(
        s.location_id.len(),
        |i: int| trace_frame_at(p, s.location_id[s.location_id.len() - 1 - i]),
    )
}

/// A node of the call tree, with the positions of those that it calls.
#[verifier::ext_equal]
pub struct TraceNodeView {
    pub frame: TraceFrameView,
    pub kids: Seq<usize>,
}

/// The first of the given nodes with this frame.
pub open spec fn kid_with(nodes: Seq<TraceNodeView>, kids: Seq<usize>, frame: TraceFrameView) -> Option<int>
    decreases kids.len(),
{
    if kids.len() == 0 {
        None
    } else if nodes[kids[0] as int].frame == frame {
        Some(kids[0] as int)
    } else {
        kid_with(nodes, kids.drop_first(), frame)
    }
}

/// The tree with a node for this frame below `at`, and the position of that node.
pub open spec fn kid_entered(
    nodes: Seq<TraceNodeView>,
    at: int,
    frame: TraceFrameView,
) -> (Seq<TraceNodeView>, int) {
    match kid_with(nodes, nodes[at].kids, frame) {
        Some(i) => (nodes, i),
        None => {
            let n = nodes.len();
            let parent = TraceNodeView { kids: nodes[at].kids.push(n as usize), ..nodes[at] };
            (nodes.update(at, parent).push(TraceNodeView { frame, kids: Seq::empty() }), n as int)
        },
    }
}

/// The tree with a path for these frames from the root down, and the position of its
/// last node.
pub open spec fn path_entered(nodes: Seq<TraceNodeView>, frames: Seq<TraceFrameView>) -> (Seq<TraceNodeView>, int)
    decreases frames.len(),
{
    if frames.len() == 0 {
        (nodes, 0)
    } else {
        let (before, at) = path_entered(nodes, frames.drop_last());
        kid_entered(before, at, frames.last())
    }
}

/// The tree before the first sample: the root alone.
pub open spec fn root_tree() -> Seq<TraceNodeView> {
    seq![TraceNodeView { frame: unknown_frame("(root)"@), kids: Seq::empty() }]
}

/// The call tree and the samples of a trace under construction.
#[verifier::ext_equal]
pub struct TraceView {
    pub nodes: Seq<TraceNodeView>,
    /// Positions of the leaf nodes.
    pub samples: Seq<usize>,
    pub deltas: Seq<i64>,
}

/// How often a sample is counted, at least once.
pub open spec fn count_at(s: SampleView, axis: Option<int>) -> int {
    match axis {
        Some(i) => if 0 <= i < s.value.len() && s.value[i] > 1 {
            s.value[i] as int
        } else {
            1
        },
        None => 1,
    }
}

/// How often a sample is repeated.
pub open spec fn repeats(s: SampleView, count_axis: Option<int>, expand: bool) -> int {
    if expand {
        count_at(s, count_axis)
    } else {
        1
    }
}

/// The trace with a sample added. One without a stack or a value above zero adds
/// nothing.
pub open spec fn sample_added(
    t: TraceView,
    p: ProfileView,
    s: SampleView,
    axis: int,
    unit: Seq<char>,
    count_axis: Option<int>,
    expand: bool,
) -> TraceView {
    if value_at(s, axis) <= 0 || s.location_id.len() == 0 {
        t
    } else {
        let (nodes, leaf) = path_entered(t.nodes, trace_frames(p, s));
        let n = repeats(s, count_axis, expand);
        TraceView {
            nodes,
            samples: t.samples + Seq::new(n as nat, |i: int| leaf as usize),
            deltas: t.deltas + parts(to_us(value_at(s, axis), unit), n),
        }
    }
}

/// The trace of a list of samples.
pub open spec fn samples_added(
    p: ProfileView,
    samples: Seq<SampleView>,
    axis: int,
    unit: Seq<char>,
    count_axis: Option<int>,
    expand: bool,
) -> TraceView
    decreases samples.len(),
{
    if samples.len() == 0 {
        TraceView { nodes: root_tree(), samples: Seq::empty(), deltas: Seq::empty() }
    } else {
        sample_added(
            samples_added(p, samples.drop_last(), axis, unit, count_axis, expand),
            p,
            samples.last(),
            axis,
            unit,
            count_axis,
            expand,
        )
    }
}

/// Whether no sample is repeated too often.
pub open spec fn expandable(samples: Seq<SampleView>, axis: int, count_axis: Option<int>, expand: bool) -> bool {
    forall|i: int|
        0 <= i < samples.len() && value_at(#[trigger] samples[i], axis) > 0 && samples[i].location_id.len() > 0
            ==> repeats(samples[i], count_axis, expand) <= MAX_EXPANSION
}

/// The parts add up to the whole.
pub proof fn law_parts_sum(delta: i64, count: int)
    requires
        count > 0,
        delta >= 0,
    ensures
        total(parts(delta, count)) == delta,
        parts(delta, count).len() == count,
{
    lemma_parts_prefix(delta, count, count);
    assert(parts(delta, count).take(count) =~= parts(delta, count));
    assert(delta as int / count * count + delta as int % count == delta) by (nonlinear_arith)
        requires
            count > 0,
    ;
}

proof fn lemma_parts_prefix(delta: i64, count: int, n: int)
    requires
        0 <= n <= count,
        count > 0,
        delta >= 0,
    ensures
        total(parts(delta, count).take(n)) == delta as int / count * n + if n < delta as int % count {
            n
        } else {
            delta as int % count
        },
    decreases n,
{
    let base = delta as int / count;
    let rem = delta as int % count;
    let p = parts(delta, count);
    assert(0 <= rem < count && 0 <= base <= delta && base * count + rem == delta) by (nonlinear_arith)
        requires
            count > 0,
            delta >= 0,
            base == delta as int / count,
            rem == delta as int % count,
    ;
    if n == 0 {
        assert(p.take(0) =~= Seq::<i64>::empty());
        assert(base * 0 == 0) by (nonlinear_arith);
    } else {
        lemma_parts_prefix(delta, count, n - 1);
        assert(p.take(n).drop_last() =~= p.take(n - 1));
        assert(base * n == base * (n - 1) + base) by (nonlinear_arith);
        if n - 1 < rem {
            assert(base + 1 <= delta) by (nonlinear_arith)
                requires
                    base * count + rem == delta,
                    count >= 1,
                    rem >= 1,
                    base >= 0,
            ;
        }
        assert(p[n - 1] == base + if n - 1 < rem {
            1int
        } else {
            0
        });
    }
}

fn value_to_us(raw: i64, unit: &str) -> (r: i64)
    requires
        raw > 0,
    ensures
        r == to_us(raw, unit@),
{
    let us: i64 = if unit.eq("nanoseconds") {
        ((raw as i128 + 500) / 1000) as i64
    } else if unit.eq("milliseconds") {
        clamp(raw as i128 * 1000)
    } else if unit.eq("seconds") {
        clamp(raw as i128 * 1_000_000)
    } else {
        raw
    };
    if us < 1 {
        1
    } else {
        us
    }
}

fn time_unit(unit: &str) -> (r: bool)
    ensures
        r == is_time_unit(unit@),
{
    unit.eq("nanoseconds") || unit.eq("microseconds") || unit.eq("milliseconds") || unit.eq("seconds")
}

pub(crate) fn select_value_axis(profile: &Profile, explicit: Option<usize>) -> (r: Result<usize, TraceError>)
    ensures
        match r {
            Ok(i) => time_axis(profile@, explicit) == Ok::<int, TraceError>(i as int) && i < profile.sample_type@.len(),
            Err(e) => time_axis(profile@, explicit) == Err::<int, TraceError>(e),
        },
{
    let n: usize = profile.sample_type.len();
    if let Some(index) = explicit {
        if index < n {
            return Ok(index);
        }
        return Err(TraceError::ValueIndex { index, types: n });
    }
    let mut i: usize = 0;
    while i < n
        invariant
            n == profile.sample_type@.len(),
            explicit is None,
            i <= n,
            first_time_axis(profile@, 0) == first_time_axis(profile@, i as int),
        decreases n - i,
    {
        let t = profile.sample_type[i];
        let ty = string_at(profile, t.ty);
        if (ty.eq("cpu") || ty.eq("wall")) && time_unit(string_at(profile, t.unit)) {
            return Ok(i);
        }
        i += 1;
    }
    Err(TraceError::NoAxis)
}

pub(crate) fn find_count_axis(profile: &Profile) -> (r: Option<usize>)
    ensures
        match r {
            Some(i) => first_count_axis(profile@, 0) == Some(i as int),
            None => first_count_axis(profile@, 0) is None,
        },
{
    let n: usize = profile.sample_type.len();
    let mut i: usize = 0;
    while i < n
        invariant
            n == profile.sample_type@.len(),
            i <= n,
            first_count_axis(profile@, 0) == first_count_axis(profile@, i as int),
        decreases n - i,
    {
        let t = profile.sample_type[i];
        if string_at(profile, t.ty).eq("samples") && string_at(profile, t.unit).eq("count") {
            return Some(i);
        }
        i += 1;
    }
    None
}

fn unknown(name: String) -> (r: TraceFrame)
    ensures
        r@ == unknown_frame(name@),
{
    let url = String::new();
    assert(url@ =~= Seq::<char>::empty());
    TraceFrame { function_name: name, url, line_number: -1, column_number: -1 }
}

fn frame_for_location(index: &ProfileIndex, loc_id: u64) -> (r: TraceFrame)
    requires
        index.wf(),
    ensures
        r@ == trace_frame_at(index.of()@, loc_id),
{
    let profile = index.profile();
    let i: usize = match index.location(loc_id) {
        Some(i) => i,
        None => {
            let mut name = "location:".to_owned();
            append_decimal(&mut name, loc_id);
            return unknown(name);
        },
    };
    let loc = &profile.location[i];
    if loc.line.len() == 0 {
        let mut name = "0x".to_owned();
        append_hex(&mut name, loc.address);
        return unknown(name);
    }
    let line = loc.line[0];
    let k: usize = match index.function(line.function_id) {
        Some(k) => k,
        None => {
            let mut name = "function:".to_owned();
            append_decimal(&mut name, line.function_id);
            return unknown(name);
        },
    };
    let func = profile.function[k];
    let name = string_at(profile, func.name);
    TraceFrame {
        function_name: if name.is_empty() {
            "(unknown)".to_owned()
        } else {
            name.to_owned()
        },
        url: string_at(profile, func.filename).to_owned(),
        line_number: if line.line > 0 {
            line.line - 1
        } else if func.start_line > 0 {
            func.start_line - 1
        } else {
            -1
        },
        column_number: if line.column > 0 {
            line.column
        } else {
            0
        },
    }
}

/// A node of the call tree, with the positions of those that it calls.
#[derive(Debug)]
pub struct TraceNode {
    pub frame: TraceFrame,
    pub kids: Vec<usize>,
}

impl View for TraceNode {
    type V = TraceNodeView;

    open spec fn view(&self) -> TraceNodeView {
        TraceNodeView { frame: self.frame@, kids: self.kids@ }
    }
}

pub open spec fn trace_node_views(s: Seq<TraceNode>) -> Seq<TraceNodeView> {
    Seq::new(s.len(), |i: int| s[i]@)
}

/// Whether the tree has a root and every kid is a node.
pub open spec fn tree_ok(nodes: Seq<TraceNodeView>) -> bool {
    &&& nodes.len() > 0
    &&& forall|i: int, j: int|
        0 <= i < nodes.len() && 0 <= j < nodes[i].kids.len() ==> (#[trigger] nodes[i].kids[j]) < nodes.len()
}

fn same_frame(a: &TraceFrame, b: &TraceFrame) -> (r: bool)
    ensures
        r == (a@ == b@),
{
    a.line_number == b.line_number && a.column_number == b.column_number && a.function_name.as_str().eq(
        b.function_name.as_str(),
    ) && a.url.as_str().eq(b.url.as_str())
}

/// The node for a frame below the one at `at`.
fn enter_kid(nodes: &mut Vec<TraceNode>, at: usize, frame: TraceFrame) -> (i: usize)
    requires
        tree_ok(trace_node_views(old(nodes)@)),
        at < old(nodes)@.len(),
    ensures
        tree_ok(trace_node_views(final(nodes)@)),
        (trace_node_views(final(nodes)@), i as int) == kid_entered(
            trace_node_views(old(nodes)@),
            at as int,
            frame@,
        ),
        i < final(nodes)@.len(),
        final(nodes)@.len() >= old(nodes)@.len(),
{
    let ghost v = trace_node_views(nodes@);
    let count: usize = nodes[at].kids.len();
    let ghost kids = v[at as int].kids;
    assert(kids.skip(0) =~= kids);
    for j in 0..count
        invariant
            nodes@ == old(nodes)@,
            v == trace_node_views(nodes@),
            tree_ok(v),
            at < nodes@.len(),
            kids == v[at as int].kids,
            count == kids.len(),
            kid_with(v, kids, frame@) == kid_with(v, kids.skip(j as int), frame@),
    {
        let k: usize = nodes[at].kids[j];
        assert(v[at as int].kids[j as int] < v.len());
        assert(kids.skip(j as int)[0] == k);
        if same_frame(&nodes[k].frame, &frame) {
            return k;
        }
        assert(kids.skip(j as int).drop_first() =~= kids.skip(j + 1));
    }
    let n: usize = nodes.len();
    let ghost fv = frame@;
    nodes[at].kids.push(n);
    nodes.push(TraceNode { frame, kids: Vec::new() });
    proof {
        let w = trace_node_views(nodes@);
        let parent = TraceNodeView { kids: kids.push(n), ..v[at as int] };
        assert(nodes@[n as int]@.kids =~= Seq::<usize>::empty());
        assert(w =~= v.update(at as int, parent).push(TraceNodeView { frame: fv, kids: Seq::empty() }));
        assert forall|x: int, y: int| 0 <= x < w.len() && 0 <= y < w[x].kids.len() implies (
        #[trigger] w[x].kids[y]) < w.len() by {
            if x == at {
                if y < kids.len() {
                    assert(v[x].kids[y] < v.len());
                }
            } else if x < v.len() {
                assert(v[x].kids[y] < v.len());
            }
        }
    }
    n
}

/// The leaf of the path of a sample.
fn intern_stack(nodes: &mut Vec<TraceNode>, index: &ProfileIndex, s: &Sample) -> (leaf: usize)
    requires
        index.wf(),
        tree_ok(trace_node_views(old(nodes)@)),
    ensures
        tree_ok(trace_node_views(final(nodes)@)),
        (trace_node_views(final(nodes)@), leaf as int) == path_entered(
            trace_node_views(old(nodes)@),
            trace_frames(index.of()@, s@),
        ),
        leaf < final(nodes)@.len(),
        final(nodes)@.len() >= old(nodes)@.len(),
{
    let n: usize = s.location_id.len();
    let ghost frames = trace_frames(index.of()@, s@);
    let ghost start = trace_node_views(nodes@);
    let mut at: usize = 0;
    for i in 0..n
        invariant
            index.wf(),
            n == s.location_id@.len(),
            frames == trace_frames(index.of()@, s@),
            tree_ok(trace_node_views(nodes@)),
            at < nodes@.len(),
            nodes@.len() >= old(nodes)@.len(),
            (trace_node_views(nodes@), at as int) == path_entered(start, frames.take(i as int)),
    {
        let f = frame_for_location(index, s.location_id[n - 1 - i]);
        proof {
            assert(frames.take(i + 1).drop_last() =~= frames.take(i as int));
            assert(frames.take(i + 1).last() == f@);
        }
        at = enter_kid(nodes, at, f);
    }
    assert(frames.take(n as int) =~= frames);
    at
}

/// Appends a sample as often as it is repeated.
fn push_expanded_samples(leaf: usize, delta_us: i64, count: i64, samples: &mut Vec<usize>, deltas: &mut Vec<i64>)
    requires
        count > 0,
        delta_us >= 0,
    ensures
        final(samples)@ == old(samples)@ + Seq::new(count as nat, |i: int| leaf),
        final(deltas)@ == old(deltas)@ + parts(delta_us, count as int),
{
    let base: i64 = delta_us / count;
    let rem: i64 = delta_us % count;
    let ghost p = parts(delta_us, count as int);
    let ghost same = Seq::new(count as nat, |i: int| leaf);
    proof {
        assert(base >= 0 && (rem > 0 ==> base + 1 <= delta_us) && base <= delta_us) by (nonlinear_arith)
            requires
                count > 0,
                delta_us >= 0,
                base == delta_us as int / count as int,
                rem == delta_us as int % count as int,
        ;
    }
    let mut i: i64 = 0;
    assert(samples@ =~= old(samples)@ + same.take(0));
    assert(deltas@ =~= old(deltas)@ + p.take(0));
    while i < count
        invariant
            0 <= i <= count,
            count > 0,
            delta_us >= 0,
            base == delta_us as int / count as int,
            rem == delta_us as int % count as int,
            base >= 0 && (rem > 0 ==> base + 1 <= delta_us) && base <= delta_us,
            p == parts(delta_us, count as int),
            same == Seq::new(count as nat, |i: int| leaf),
            samples@ == old(samples)@ + same.take(i as int),
            deltas@ == old(deltas)@ + p.take(i as int),
        decreases count - i,
    {
        samples.push(leaf);
        deltas.push(
            if i < rem {
                base + 1
            } else {
                base
            },
        );
        assert(samples@ =~= old(samples)@ + same.take(i + 1));
        assert(deltas@ =~= old(deltas)@ + p.take(i + 1));
        i += 1;
    }
    assert(same.take(count as int) =~= same);
    assert(p.take(count as int) =~= p);
}

/// The call tree and the samples of a trace.
#[derive(Debug)]
pub struct CallTree {
    pub nodes: Vec<TraceNode>,
    /// Positions of the leaf nodes.
    pub samples: Vec<usize>,
    pub deltas: Vec<i64>,
}

impl View for CallTree {
    type V = TraceView;

    open spec fn view(&self) -> TraceView {
        TraceView {
            nodes: trace_node_views(self.nodes@),
            samples: self.samples@,
            deltas: self.deltas@,
        }
    }
}

/// How often a sample is counted, at least once.
fn sample_count(s: &Sample, axis: Option<usize>) -> (r: i64)
    ensures
        r == count_at(
            s@,
            match axis {
                Some(i) => Some(i as int),
                None => None,
            },
        ),
        r >= 1,
{
    match axis {
        Some(i) => if i < s.value.len() && s.value[i] > 1 {
            s.value[i]
        } else {
            1
        },
        None => 1,
    }
}

/// The trace of a profile's samples. `None` where one would be repeated too often.
pub(crate) fn grow_tree(profile: &Profile, axis: usize, unit: &str, counts: Option<usize>, expand: bool) -> (r: Option<CallTree>)
    ensures
        ({
            let c = match counts {
                Some(i) => Some(i as int),
                None => None,
            };
            match r {
                Some(t) => {
                    &&& expandable(profile@.sample, axis as int, c, expand)
                    &&& t@ == samples_added(profile@, profile@.sample, axis as int, unit@, c, expand)
                    &&& tree_ok(t@.nodes)
                    &&& t.samples@.len() == t.deltas@.len()
                    &&& forall|i: int| 0 <= i < t.samples@.len() ==> #[trigger] t.samples@[i] < t.nodes@.len()
                    &&& forall|i: int| 0 <= i < t.deltas@.len() ==> #[trigger] t.deltas@[i] >= 0
                },
                None => !expandable(profile@.sample, axis as int, c, expand),
            }
        }),
{
    let ghost c = match counts {
        Some(i) => Some(i as int),
        None => None,
    };
    let ghost p = profile@;
    let ghost v = p.sample;
    let index = ProfileIndex::new(profile);
    let mut nodes: Vec<TraceNode> = Vec::new();
    nodes.push(TraceNode { frame: unknown("(root)".to_owned()), kids: Vec::new() });
    let mut t = CallTree { nodes, samples: Vec::new(), deltas: Vec::new() };
    proof {
        assert(t.nodes@[0]@.kids =~= Seq::<usize>::empty());
        assert(t@.nodes =~= root_tree());
        assert(t@ =~= samples_added(p, v.take(0), axis as int, unit@, c, expand));
    }
    for i in 0..profile.sample.len()
        invariant
            c == (match counts {
                Some(i) => Some(i as int),
                None => None,
            }),
            p == profile@,
            v == p.sample,
            index.wf(),
            index.of() == *profile,
            expandable(v.take(i as int), axis as int, c, expand),
            t@ == samples_added(p, v.take(i as int), axis as int, unit@, c, expand),
            tree_ok(t@.nodes),
            t.samples@.len() == t.deltas@.len(),
            forall|k: int| 0 <= k < t.samples@.len() ==> #[trigger] t.samples@[k] < t.nodes@.len(),
            forall|k: int| 0 <= k < t.deltas@.len() ==> #[trigger] t.deltas@[k] >= 0,
    {
        let s = &profile.sample[i];
        let ghost done = v.take(i as int);
        let ghost next = v.take(i + 1);
        let ghost before = t@;
        proof {
            assert(next.drop_last() =~= done);
            assert(next.last() == s@);
            assert(next[i as int] == s@);
            assert forall|k: int| 0 <= k < i implies next[k] == done[k] by {}
        }
        let raw: i64 = sample_value(s, axis);
        if raw > 0 && s.location_id.len() > 0 {
            let count: i64 = if expand {
                sample_count(s, counts)
            } else {
                1
            };
            if count > MAX_EXPANSION {
                proof {
                    assert(v[i as int] == s@);
                    assert(!expandable(v, axis as int, c, expand));
                }
                return None;
            }
            let leaf: usize = intern_stack(&mut t.nodes, &index, s);
            let delta_us: i64 = value_to_us(raw, unit);
            push_expanded_samples(leaf, delta_us, count, &mut t.samples, &mut t.deltas);
            proof {
                lemma_parts_nonnegative(delta_us, count as int);
                assert forall|k: int| 0 <= k < t.samples@.len() implies #[trigger] t.samples@[k] < t.nodes@.len() by {
                    if k < before.samples.len() {
                        assert(t.samples@[k] == before.samples[k]);
                        assert(before.samples[k] < before.nodes.len());
                    }
                }
                assert(t@ =~= sample_added(before, p, s@, axis as int, unit@, c, expand));
                assert forall|k: int|
                    0 <= k < next.len() && value_at(#[trigger] next[k], axis as int) > 0 && next[k].location_id.len()
                        > 0 implies repeats(next[k], c, expand) <= MAX_EXPANSION by {
                    if k < i {
                        assert(done[k] == next[k]);
                    }
                }
            }
        } else {
            proof {
                assert forall|k: int|
                    0 <= k < next.len() && value_at(#[trigger] next[k], axis as int) > 0 && next[k].location_id.len()
                        > 0 implies repeats(next[k], c, expand) <= MAX_EXPANSION by {
                    if k < i {
                        assert(done[k] == next[k]);
                    }
                }
            }
        }
    }
    assert(v.take(v.len() as int) =~= v);
    Some(t)
}

proof fn lemma_parts_nonnegative(delta: i64, count: int)
    requires
        count > 0,
        delta >= 0,
    ensures
        forall|i: int| 0 <= i < count ==> #[trigger] parts(delta, count)[i] >= 0,
{
    let base = delta as int / count;
    let rem = delta as int % count;
    assert(0 <= base <= delta && (rem > 0 ==> base + 1 <= delta)) by (nonlinear_arith)
        requires
            count > 0,
            delta >= 0,
            base == delta as int / count,
            rem == delta as int % count,
    ;
}

} // verus!

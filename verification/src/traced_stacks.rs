//! What a trace says of each sample of the profile that it was made from.
use vstd::prelude::*;
use crate::folded_export::value_at;
use crate::proto::{text_at, ProfileView, SampleView};
use crate::resolve::location_with;
use crate::summed::{is_function, is_location, lemma_function_found, lemma_location_found};
use crate::tally::total;
use crate::text::{dec, hex};
use crate::to_chrome_trace::{
    kid_entered, kid_with, law_parts_sum, parts, path_entered, repeats, samples_added, to_us,
    trace_frame_at, trace_frames, TraceFrameView, TraceNodeView,
};

verus! {

/// Whether a frame is that of a location: it has the name and the file of the function of the
/// location's first line. A line counts from zero in it, and the function's first line stands
/// in for one that is unknown.
pub open spec fn is_frame_of(p: ProfileView, id: u64, f: TraceFrameView) -> bool {
    &&& forall|l: int, k: int|
        #![trigger is_location(p, id, l), is_function(p, p.location[l].line[0].function_id, k)]
        is_location(p, id, l) && p.location[l].line.len() > 0 && is_function(
            p,
            p.location[l].line[0].function_id,
            k,
        ) ==> {
            let name = text_at(p.string_table, p.function[k].name);
            let line = p.location[l].line[0];
            &&& name.len() > 0 ==> f.function_name == name
            &&& name.len() == 0 ==> f.function_name == "(unknown)"@
            &&& f.url == text_at(p.string_table, p.function[k].filename)
            &&& line.line > 0 ==> f.line_number + 1 == line.line
            &&& line.line <= 0 && p.function[k].start_line > 0 ==> f.line_number + 1 == p.function[k].start_line
            &&& line.line <= 0 && p.function[k].start_line <= 0 ==> f.line_number == -1
            &&& line.column > 0 ==> f.column_number == line.column
            &&& line.column <= 0 ==> f.column_number == 0
        }
    &&& (forall|l: int| !is_location(p, id, l)) ==> f.function_name == "location:"@ + dec(id as nat)
    &&& forall|l: int| #[trigger]
        is_location(p, id, l) && p.location[l].line.len() == 0 ==> f.function_name == "0x"@ + hex(
            p.location[l].address as nat,
        )
}

/// The frame of a location.
pub proof fn law_trace_frame(p: ProfileView, id: u64)
    ensures
        is_frame_of(p, id, trace_frame_at(p, id)),
{
    lemma_location_found(p, id);
    match location_with(p.location, id) {
        Some(l) => {
            if p.location[l].line.len() > 0 {
                lemma_function_found(p, p.location[l].line[0].function_id);
            }
        },
        None => {},
    }
}

/// Whether nodes from the root down spell frames, each node called by the one before.
pub open spec fn spells(nodes: Seq<TraceNodeView>, way: Seq<int>, frames: Seq<TraceFrameView>) -> bool {
    &&& way.len() == frames.len() + 1
    &&& way[0] == 0
    &&& forall|i: int| 0 <= i < way.len() ==> 0 <= #[trigger] way[i] < nodes.len()
    &&& forall|i: int| 0 <= i < frames.len() ==> #[trigger] is_call(nodes, way, frames[i], i)
}

/// Whether a node of a way calls the next one, which has this frame.
pub open spec fn is_call(nodes: Seq<TraceNodeView>, way: Seq<int>, frame: TraceFrameView, i: int) -> bool {
    nodes[way[i]].kids.contains(way[i + 1] as usize) && nodes[way[i + 1]].frame == frame
}

spec fn grows(a: Seq<TraceNodeView>, b: Seq<TraceNodeView>) -> bool {
    &&& a.len() <= b.len()
    &&& forall|i: int| 0 <= i < a.len() ==> (#[trigger] b[i]).frame == a[i].frame
    &&& forall|i: int, k: usize| 0 <= i < a.len() && #[trigger] a[i].kids.contains(k) ==> b[i].kids.contains(k)
}

spec fn kids_ok(nodes: Seq<TraceNodeView>) -> bool {
    &&& nodes.len() > 0
    &&& forall|i: int, k: int| 0 <= i < nodes.len() && 0 <= k < nodes[i].kids.len() ==> (#[trigger] nodes[i].kids[k]) < nodes.len()
}

proof fn lemma_spells_kept(a: Seq<TraceNodeView>, b: Seq<TraceNodeView>, way: Seq<int>, frames: Seq<TraceFrameView>)
    requires
        grows(a, b),
        spells(a, way, frames),
    ensures
        spells(b, way, frames),
{
    assert forall|i: int| 0 <= i < frames.len() implies #[trigger] is_call(b, way, frames[i], i) by {
        assert(is_call(a, way, frames[i], i));
        assert(0 <= way[i] < a.len() && 0 <= way[i + 1] < a.len());
    }
}

proof fn lemma_kid(nodes: Seq<TraceNodeView>, kids: Seq<usize>, frame: TraceFrameView)
    ensures
        kid_with(nodes, kids, frame) matches Some(i) ==> 0 <= i <= usize::MAX && kids.contains(i as usize) && nodes[i].frame == frame,
    decreases kids.len(),
{
    if kids.len() > 0 {
        let rest = kids.drop_first();
        lemma_kid(nodes, rest, frame);
        if nodes[kids[0] as int].frame == frame {
            assert(kids.contains(kids[0]));
        } else if let Some(i) = kid_with(nodes, rest, frame) {
            let k = rest.index_of(i as usize);
            assert(rest[k] == i as usize);
            assert(kids[k + 1] == i as usize);
        }
    }
}

proof fn lemma_kid_entered(nodes: Seq<TraceNodeView>, at: int, frame: TraceFrameView)
    requires
        kids_ok(nodes),
        0 <= at < nodes.len(),
        kid_entered(nodes, at, frame).0.len() <= usize::MAX,
    ensures
        ({
            let (r, i) = kid_entered(nodes, at, frame);
            &&& kids_ok(r)
            &&& grows(nodes, r)
            &&& 0 <= i < r.len()
            &&& r[i].frame == frame
            &&& r[at].kids.contains(i as usize)
        }),
{
    lemma_kid(nodes, nodes[at].kids, frame);
    let (r, i) = kid_entered(nodes, at, frame);
    let kids = nodes[at].kids;
    match kid_with(nodes, kids, frame) {
        Some(x) => {
            let k = kids.index_of(x as usize);
            assert(nodes[at].kids[k] == x as usize);
        },
        None => {
            let n = nodes.len();
            assert forall|j: int, k: usize| 0 <= j < nodes.len() && #[trigger] nodes[j].kids.contains(k) implies r[j].kids.contains(
                k,
            ) by {
                let x = nodes[j].kids.index_of(k);
                assert(nodes[j].kids[x] == k);
                assert(r[j].kids[x] == k);
            }
            assert(r[at].kids[kids.len() as int] == n as usize);
            assert forall|j: int, k: int| 0 <= j < r.len() && 0 <= k < r[j].kids.len() implies (#[trigger] r[j].kids[k])
                < r.len() by {
                if j < n && k < nodes[j].kids.len() {
                    assert(r[j].kids[k] == nodes[j].kids[k]);
                }
            }
        },
    }
}

proof fn lemma_grows_trans(a: Seq<TraceNodeView>, b: Seq<TraceNodeView>, c: Seq<TraceNodeView>)
    requires
        grows(a, b),
        grows(b, c),
    ensures
        grows(a, c),
{
    assert forall|i: int| 0 <= i < a.len() implies (#[trigger] c[i]).frame == a[i].frame by {
        assert(b[i].frame == a[i].frame);
    }
    assert forall|i: int, k: usize| 0 <= i < a.len() && #[trigger] a[i].kids.contains(k) implies c[i].kids.contains(k) by {
        assert(b[i].kids.contains(k));
    }
}

proof fn lemma_kid_in_range(nodes: Seq<TraceNodeView>, at: int, frame: TraceFrameView)
    requires
        kids_ok(nodes),
        0 <= at < nodes.len(),
    ensures
        kids_ok(kid_entered(nodes, at, frame).0),
        nodes.len() <= kid_entered(nodes, at, frame).0.len(),
        0 <= kid_entered(nodes, at, frame).1 < kid_entered(nodes, at, frame).0.len(),
{
    let kids = nodes[at].kids;
    let r = kid_entered(nodes, at, frame).0;
    lemma_kid(nodes, kids, frame);
    match kid_with(nodes, kids, frame) {
        Some(x) => {
            let k = kids.index_of(x as usize);
            assert(nodes[at].kids[k] == x as usize);
        },
        None => {
            assert forall|j: int, k: int| 0 <= j < r.len() && 0 <= k < r[j].kids.len() implies (#[trigger] r[j].kids[k])
                < r.len() by {
                if j < nodes.len() && k < nodes[j].kids.len() {
                    assert(r[j].kids[k] == nodes[j].kids[k]);
                }
            }
        },
    }
}

proof fn lemma_path_len(nodes: Seq<TraceNodeView>, frames: Seq<TraceFrameView>)
    requires
        kids_ok(nodes),
    ensures
        kids_ok(path_entered(nodes, frames).0),
        nodes.len() <= path_entered(nodes, frames).0.len(),
        0 <= path_entered(nodes, frames).1 < path_entered(nodes, frames).0.len(),
    decreases frames.len(),
{
    if frames.len() > 0 {
        lemma_path_len(nodes, frames.drop_last());
        let (before, at) = path_entered(nodes, frames.drop_last());
        lemma_kid_in_range(before, at, frames.last());
    }
}

proof fn lemma_path(nodes: Seq<TraceNodeView>, frames: Seq<TraceFrameView>) -> (way: Seq<int>)
    requires
        kids_ok(nodes),
        path_entered(nodes, frames).0.len() <= usize::MAX,
    ensures
        kids_ok(path_entered(nodes, frames).0),
        grows(nodes, path_entered(nodes, frames).0),
        spells(path_entered(nodes, frames).0, way, frames),
        way.last() == path_entered(nodes, frames).1,
    decreases frames.len(),
{
    if frames.len() == 0 {
        seq![0int]
    } else {
        let front = frames.drop_last();
        let (before, at) = path_entered(nodes, front);
        let (r, i) = kid_entered(before, at, frames.last());
        lemma_path_len(nodes, front);
        lemma_kid_in_range(before, at, frames.last());
        let short = lemma_path(nodes, front);
        assert(0 <= short[short.len() - 1] < before.len());
        lemma_kid_entered(before, at, frames.last());
        lemma_grows_trans(nodes, before, r);
        lemma_spells_kept(before, r, short, front);
        let way = short.push(i);
        assert forall|j: int| 0 <= j < way.len() implies 0 <= #[trigger] way[j] < r.len() by {
            if j < short.len() {
                assert(way[j] == short[j]);
            }
        }
        assert forall|j: int| 0 <= j < frames.len() implies #[trigger] is_call(r, way, frames[j], j) by {
            if j < front.len() {
                assert(is_call(r, short, front[j], j));
                assert(way[j] == short[j] && way[j + 1] == short[j + 1]);
            } else {
                assert(way[j] == at);
            }
        }
        way
    }
}

/// How often samples come in a trace.
pub open spec fn comes(samples: Seq<SampleView>, axis: int, counts: Option<int>, expand: bool) -> int
    decreases samples.len(),
{
    if samples.len() == 0 {
        0
    } else {
        comes(samples.drop_last(), axis, counts, expand) + comes_itself(samples.last(), axis, counts, expand)
    }
}

/// How often a sample comes: never without a stack or a value above zero. Where samples are
/// expanded it comes as often as it was counted, else once.
pub open spec fn comes_itself(s: SampleView, axis: int, counts: Option<int>, expand: bool) -> int {
    if s.location_id.len() > 0 && 0 <= axis < s.value.len() && s.value[axis] > 0 {
        match counts {
            Some(c) => if expand && 0 <= c < s.value.len() && s.value[c] >= 1 {
                s.value[c] as int
            } else {
                1
            },
            None => 1,
        }
    } else {
        0
    }
}

/// Whether a sample comes in a trace from a place on: each time with the same node, to which
/// the frames lead from the root down, so that the last location is the outermost. The times
/// differ by at most one and add up to that of the sample.
pub open spec fn comes_at(
    nodes: Seq<TraceNodeView>,
    leaves: Seq<usize>,
    deltas: Seq<i64>,
    p: ProfileView,
    s: SampleView,
    at: int,
    n: int,
    us: int,
    way: Seq<int>,
) -> bool {
    let frames = Seq::new(s.location_id.len(), |i: int| trace_frame_at(p, s.location_id[s.location_id.len() - 1 - i]));
    &&& 0 <= at
    &&& at + n <= leaves.len()
    &&& at + n <= deltas.len()
    &&& spells(nodes, way, frames)
    &&& forall|i: int| 0 <= i < s.location_id.len() ==> is_frame_of(
        p,
        #[trigger] s.location_id[i],
        nodes[way[s.location_id.len() - i]].frame,
    )
    &&& forall|r: int| at <= r < at + n ==> #[trigger] leaves[r] == way.last()
    &&& total(deltas.subrange(at, at + n)) == us
    &&& forall|a: int, b: int| at <= a < b < at + n ==> 0 <= #[trigger] deltas[a] - #[trigger] deltas[b] <= 1
}

proof fn lemma_comes_at_kept(
    a: Seq<TraceNodeView>,
    b: Seq<TraceNodeView>,
    leaves: Seq<usize>,
    more: Seq<usize>,
    deltas: Seq<i64>,
    most: Seq<i64>,
    p: ProfileView,
    s: SampleView,
    at: int,
    n: int,
    us: int,
    way: Seq<int>,
)
    requires
        n >= 0,
        grows(a, b),
        comes_at(a, leaves, deltas, p, s, at, n, us, way),
    ensures
        comes_at(b, leaves + more, deltas + most, p, s, at, n, us, way),
{
    let frames = Seq::new(s.location_id.len(), |i: int| trace_frame_at(p, s.location_id[s.location_id.len() - 1 - i]));
    lemma_spells_kept(a, b, way, frames);
    assert((deltas + most).subrange(at, at + n) =~= deltas.subrange(at, at + n));
    assert forall|i: int| 0 <= i < s.location_id.len() implies is_frame_of(
        p,
        #[trigger] s.location_id[i],
        b[way[s.location_id.len() - i]].frame,
    ) by {
        let w = way[s.location_id.len() - i];
        assert(0 <= w < a.len());
    }
    assert forall|r: int| at <= r < at + n implies #[trigger] (leaves + more)[r] == way.last() by {
        assert(leaves[r] == way.last());
    }
    assert forall|x: int, y: int| at <= x < y < at + n implies 0 <= #[trigger] (deltas + most)[x] - #[trigger] (deltas
        + most)[y] <= 1 by {
        assert(0 <= deltas[x] - deltas[y] <= 1);
    }
}

spec fn trace_fine(p: ProfileView, samples: Seq<SampleView>, axis: int, unit: Seq<char>, counts: Option<int>, expand: bool) -> bool {
    let t = samples_added(p, samples, axis, unit, counts, expand);
    &&& kids_ok(t.nodes)
    &&& t.samples.len() == comes(samples, axis, counts, expand)
    &&& t.deltas.len() == t.samples.len()
}

proof fn lemma_nodes_grow(p: ProfileView, samples: Seq<SampleView>, axis: int, unit: Seq<char>, counts: Option<int>, expand: bool)
    requires
        samples.len() > 0,
    ensures
        samples_added(p, samples.drop_last(), axis, unit, counts, expand).nodes.len() <= samples_added(
            p,
            samples,
            axis,
            unit,
            counts,
            expand,
        ).nodes.len(),
{
    let t = samples_added(p, samples.drop_last(), axis, unit, counts, expand);
    lemma_nodes_ok(p, samples.drop_last(), axis, unit, counts, expand);
    lemma_path_len(t.nodes, trace_frames(p, samples.last()));
}

proof fn lemma_nodes_ok(p: ProfileView, samples: Seq<SampleView>, axis: int, unit: Seq<char>, counts: Option<int>, expand: bool)
    ensures
        kids_ok(samples_added(p, samples, axis, unit, counts, expand).nodes),
    decreases samples.len(),
{
    if samples.len() > 0 {
        let t = samples_added(p, samples.drop_last(), axis, unit, counts, expand);
        lemma_nodes_ok(p, samples.drop_last(), axis, unit, counts, expand);
        lemma_path_len(t.nodes, trace_frames(p, samples.last()));
    }
}

proof fn lemma_parts(us: i64, n: int)
    requires
        n > 0,
        us >= 0,
    ensures
        total(parts(us, n)) == us,
        parts(us, n).len() == n,
        forall|a: int, b: int| 0 <= a < b < n ==> 0 <= #[trigger] parts(us, n)[a] - #[trigger] parts(us, n)[b] <= 1,
{
    law_parts_sum(us, n);
    let q = us as int / n;
    let r = us as int % n;
    assert(0 <= q <= us && (r > 0 ==> q + 1 <= us)) by (nonlinear_arith)
        requires
            n > 0,
            us >= 0,
            q == us as int / n,
            r == us as int % n,
    ;
    assert forall|a: int, b: int| 0 <= a < b < n implies 0 <= #[trigger] parts(us, n)[a] - #[trigger] parts(us, n)[b]
        <= 1 by {}
}

proof fn lemma_one_comes(p: ProfileView, samples: Seq<SampleView>, axis: int, unit: Seq<char>, counts: Option<int>, expand: bool) -> (way: Seq<int>)
    requires
        samples.len() > 0,
        trace_fine(p, samples.drop_last(), axis, unit, counts, expand),
        comes_itself(samples.last(), axis, counts, expand) > 0,
        samples_added(p, samples, axis, unit, counts, expand).nodes.len() <= usize::MAX,
    ensures
        ({
            let t = samples_added(p, samples, axis, unit, counts, expand);
            let s = samples.last();
            let n = comes_itself(s, axis, counts, expand);
            comes_at(
                t.nodes,
                t.samples,
                t.deltas,
                p,
                s,
                comes(samples.drop_last(), axis, counts, expand),
                n,
                to_us(s.value[axis], unit) as int,
                way,
            )
        }),
{
    let before = samples_added(p, samples.drop_last(), axis, unit, counts, expand);
    let t = samples_added(p, samples, axis, unit, counts, expand);
    let s = samples.last();
    let frames = trace_frames(p, s);
    let n = comes_itself(s, axis, counts, expand);
    let us = to_us(s.value[axis], unit);
    let at = comes(samples.drop_last(), axis, counts, expand);
    let way = lemma_path(before.nodes, frames);
    assert(n == repeats(s, counts, expand));
    assert(0 <= way[way.len() - 1] < t.nodes.len());
    lemma_parts(us, n);
    assert(t.deltas.subrange(at, at + n) =~= parts(us, n));
    assert(frames =~= Seq::new(
        s.location_id.len(),
        |i: int| trace_frame_at(p, s.location_id[s.location_id.len() - 1 - i]),
    ));
    assert forall|i: int| 0 <= i < s.location_id.len() implies is_frame_of(
        p,
        #[trigger] s.location_id[i],
        t.nodes[way[s.location_id.len() - i]].frame,
    ) by {
        let j = s.location_id.len() - 1 - i;
        assert(is_call(t.nodes, way, frames[j], j));
        law_trace_frame(p, s.location_id[i]);
    }
    assert forall|a: int, b: int| at <= a < b < at + n implies 0 <= #[trigger] t.deltas[a] - #[trigger] t.deltas[b] <= 1 by {
        assert(t.deltas[a] == parts(us, n)[a - at]);
        assert(t.deltas[b] == parts(us, n)[b - at]);
    }
    way
}

proof fn lemma_fine(p: ProfileView, samples: Seq<SampleView>, axis: int, unit: Seq<char>, counts: Option<int>, expand: bool)
    requires
        samples_added(p, samples, axis, unit, counts, expand).nodes.len() <= usize::MAX,
    ensures
        trace_fine(p, samples, axis, unit, counts, expand),
        samples.len() > 0 ==> grows(
            samples_added(p, samples.drop_last(), axis, unit, counts, expand).nodes,
            samples_added(p, samples, axis, unit, counts, expand).nodes,
        ),
    decreases samples.len(),
{
    if samples.len() > 0 {
        let s = samples.last();
        let before = samples_added(p, samples.drop_last(), axis, unit, counts, expand);
        lemma_nodes_grow(p, samples, axis, unit, counts, expand);
        lemma_fine(p, samples.drop_last(), axis, unit, counts, expand);
        if value_at(s, axis) > 0 && s.location_id.len() > 0 {
            let way = lemma_path(before.nodes, trace_frames(p, s));
            law_parts_sum(to_us(value_at(s, axis), unit), repeats(s, counts, expand));
        }
    }
}

/// Each sample with a stack and a value comes in the trace, behind those before it, and
/// nothing else does.
pub proof fn law_sample_traced(
    p: ProfileView,
    samples: Seq<SampleView>,
    axis: int,
    unit: Seq<char>,
    counts: Option<int>,
    expand: bool,
    k: int,
)
    requires
        0 <= k < samples.len(),
        comes_itself(samples[k], axis, counts, expand) > 0,
        samples_added(p, samples, axis, unit, counts, expand).nodes.len() <= usize::MAX,
    ensures
        samples_added(p, samples, axis, unit, counts, expand).samples.len() == comes(samples, axis, counts, expand),
        samples_added(p, samples, axis, unit, counts, expand).deltas.len() == comes(samples, axis, counts, expand),
        exists|way: Seq<int>|
            comes_at(
                samples_added(p, samples, axis, unit, counts, expand).nodes,
                samples_added(p, samples, axis, unit, counts, expand).samples,
                samples_added(p, samples, axis, unit, counts, expand).deltas,
                p,
                samples[k],
                comes(samples.take(k), axis, counts, expand),
                comes_itself(samples[k], axis, counts, expand),
                to_us(samples[k].value[axis], unit) as int,
                way,
            ),
    decreases samples.len(),
{
    let front = samples.drop_last();
    let t = samples_added(p, samples, axis, unit, counts, expand);
    lemma_fine(p, samples, axis, unit, counts, expand);
    lemma_nodes_grow(p, samples, axis, unit, counts, expand);
    lemma_fine(p, front, axis, unit, counts, expand);
    let at = comes(samples.take(k), axis, counts, expand);
    let n = comes_itself(samples[k], axis, counts, expand);
    let us = to_us(samples[k].value[axis], unit) as int;
    if k == samples.len() - 1 {
        assert(samples.take(k) =~= front);
        let way = lemma_one_comes(p, samples, axis, unit, counts, expand);
    } else {
        let before = samples_added(p, front, axis, unit, counts, expand);
        law_sample_traced(p, front, axis, unit, counts, expand, k);
        assert(front.take(k) =~= samples.take(k));
        assert(front[k] == samples[k]);
        let way = choose|way: Seq<int>|
            comes_at(before.nodes, before.samples, before.deltas, p, samples[k], at, n, us, way);
        let more = t.samples.skip(before.samples.len() as int);
        let most = t.deltas.skip(before.deltas.len() as int);
        assert(before.samples + more =~= t.samples);
        assert(before.deltas + most =~= t.deltas);
        lemma_comes_at_kept(
            before.nodes,
            t.nodes,
            before.samples,
            more,
            before.deltas,
            most,
            p,
            samples[k],
            at,
            n,
            us,
            way,
        );
    }
}

/// A time in microseconds: nanoseconds are rounded to the nearest, the larger units are
/// multiplied, and it is never below 1.
pub proof fn law_microseconds(raw: i64)
    requires
        raw > 0,
    ensures
        to_us(raw, "nanoseconds"@) >= 1,
        raw >= 500 ==> -500 <= raw - 1000 * to_us(raw, "nanoseconds"@) < 500,
        raw < 500 ==> to_us(raw, "nanoseconds"@) == 1,
        to_us(raw, "microseconds"@) == raw,
        1000 * raw <= i64::MAX ==> to_us(raw, "milliseconds"@) == 1000 * raw,
        1_000_000 * raw <= i64::MAX ==> to_us(raw, "seconds"@) == 1_000_000 * raw,
{
    reveal_strlit("nanoseconds");
    reveal_strlit("microseconds");
    reveal_strlit("milliseconds");
    reveal_strlit("seconds");
    assert("microseconds"@[1] == 'i' && "nanoseconds"@[1] == 'a' && "milliseconds"@[2] == 'l' && "seconds"@[1] == 'e');
    assert("microseconds"@[2] == 'c' && "milliseconds"@[1] == 'i');
}

} // verus!

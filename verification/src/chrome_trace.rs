//! V8 CPU profiles inside Chrome trace-event JSON as pprof.
//!
//! A trace holds `Profile` and `ProfileChunk` events. Those of one process, thread and
//! profile id are the pieces of one CPU profile.
use vstd::prelude::*;
use std::collections::HashMap;
use crate::codec::profile_bytes;
use crate::cpuprofile::{
    acyclic, cpu_profile, indexes_nodes, lemma_node_index, node_index, node_views, stats_of,
    values_fit, BuildError, Builder, CpuNode, CpuNodeView, CpuProfile, CpuProfileView, Stats,
};
use crate::demangle::{Demangler, MoonBit, Verbatim};
use crate::folded_export::{order_texts, text_less, Order};
use crate::gz::{gzipped, loaded, LoadError};
use crate::json::JsonView;
use crate::json_text::{read_bytes, text_json};
use crate::num::{clamp, clamped, fits_i64, is_i64};
use crate::pool::entered;
use crate::proto::ProfileView;
use crate::tally::total;
use crate::text::chars_of;
use crate::trace_events::{
    chunk_values, empty_stream, event_values, ingest_profile_event, ingested, parse_trace_events,
    profile_key, raw_node_values, trace_json, ChunkView, EventView, PartialProfile, ProfileChunk,
    RawNode, RawNodeView, StreamView, TraceEvent,
};
use crate::v8::mapping_text;

verus! {

broadcast use vstd::std_specs::hash::group_hash_axioms;

/// Options of a conversion.
#[derive(Debug)]
pub struct ConvertOptions {
    /// Which of the trace's profiles to convert.
    pub profile_index: usize,
    /// Keep names as they are.
    pub no_demangle: bool,
    /// File name of the mapping.
    pub mapping_filename: Option<String>,
    /// Microseconds before a sample for which the trace gives none.
    pub default_sample_delta_us: i64,
}

impl Default for ConvertOptions {
    fn default() -> (r: ConvertOptions)
        ensures
            r.profile_index == 0,
            !r.no_demangle,
            r.mapping_filename is None,
            r.default_sample_delta_us == 1000,
    {
        ConvertOptions {
            profile_index: 0,
            no_demangle: false,
            mapping_filename: None,
            default_sample_delta_us: 1000,
        }
    }
}

/// What a trace holds of one CPU profile.
#[derive(Clone, Debug, PartialEq, Eq)]
pub struct ExtractedProfileInfo {
    /// Process, thread and profile id.
    pub key: String,
    /// Number of profile nodes.
    pub nodes: usize,
    /// Number of CPU samples.
    pub samples: usize,
}

/// A converted profile.
pub struct EncodedProfile {
    /// gzip-compressed pprof protobuf.
    pub encoded: Vec<u8>,
    /// All CPU profiles of the trace.
    pub profiles: Vec<ExtractedProfileInfo>,
    pub stats: Stats,
}

/// Why a trace was not converted.
#[derive(Clone, Copy, Debug, PartialEq, Eq, Structural)]
pub enum TraceError {
    /// The text is no JSON.
    Json,
    /// The JSON is no trace.
    Shape,
    /// An event's profile is malformed.
    Event,
    /// The times of a profile add up to more than 64 bits hold.
    Overflow,
    /// The trace holds no CPU profile.
    NoProfile,
    /// The trace holds fewer profiles than the index asks for.
    ProfileIndex { index: usize, profiles: usize },
    /// The selected profile was not converted.
    Build(BuildError),
}

/// Whether an event carries a piece of a CPU profile.
pub open spec fn is_profile_event(e: EventView) -> bool {
    e.name == Some("Profile"@) || e.name == Some("ProfileChunk"@)
}

/// Where `k` stands, or would stand, in a list in order of texts.
pub open spec fn slot<T>(m: Seq<(Seq<char>, T)>, k: Seq<char>) -> int
    decreases m.len(),
{
    if m.len() == 0 || m[0].0 == k || text_less(k, m[0].0) {
        0
    } else {
        1 + slot(m.drop_first(), k)
    }
}

/// The streams with an event taken into the one of its key. `None` where the event's
/// profile is malformed.
pub open spec fn stream_ingested(
    m: Seq<(Seq<char>, StreamView)>,
    e: EventView,
) -> Option<Seq<(Seq<char>, StreamView)>> {
    let k = profile_key(e);
    let i = slot(m, k);
    let known = i < m.len() && m[i].0 == k;
    match ingested(
        if known {
            m[i].1
        } else {
            empty_stream()
        },
        e,
    ) {
        None => None,
        Some(s) => if known {
            Some(m.update(i, (k, s)))
        } else {
            Some(m.insert(i, (k, s)))
        },
    }
}

/// The profile streams of a trace, in order of their keys. `None` where an event's
/// profile is malformed.
pub open spec fn streams_of(events: Seq<EventView>) -> Option<Seq<(Seq<char>, StreamView)>>
    decreases events.len(),
{
    if events.len() == 0 {
        Some(Seq::empty())
    } else {
        match streams_of(events.drop_last()) {
            None => None,
            Some(m) => if is_profile_event(events.last()) {
                stream_ingested(m, events.last())
            } else {
                Some(m)
            },
        }
    }
}

/// Pieces in order of time, with one more behind those that are not later.
pub open spec fn chunk_placed(s: Seq<ChunkView>, c: ChunkView) -> Seq<ChunkView>
    decreases s.len(),
{
    if s.len() == 0 || s.last().ts <= c.ts {
        s.push(c)
    } else {
        chunk_placed(s.drop_last(), c).push(s.last())
    }
}

/// Pieces in order of time. Those of one time keep their order.
pub open spec fn by_time(s: Seq<ChunkView>) -> Seq<ChunkView>
    decreases s.len(),
{
    if s.len() == 0 {
        Seq::empty()
    } else {
        chunk_placed(by_time(s.drop_last()), s.last())
    }
}

/// A list with those of another added that it lacks.
pub open spec fn joined(a: Seq<i64>, b: Seq<i64>) -> Seq<i64>
    decreases b.len(),
{
    if b.len() == 0 {
        a
    } else {
        entered(joined(a, b.drop_last()), b.last())
    }
}

/// The nodes with one more. Where its id is there, the children are put together.
pub open spec fn node_joined(acc: Seq<CpuNodeView>, n: RawNodeView) -> Seq<CpuNodeView> {
    match node_index(acc, n.id) {
        None => acc.push(CpuNodeView { id: n.id, call_frame: n.call_frame, children: n.children }),
        Some(i) => acc.update(
            i,
            CpuNodeView { children: joined(acc[i].children, n.children), ..acc[i] },
        ),
    }
}

pub open spec fn nodes_joined(acc: Seq<CpuNodeView>, nodes: Seq<RawNodeView>) -> Seq<CpuNodeView>
    decreases nodes.len(),
{
    if nodes.len() == 0 {
        acc
    } else {
        node_joined(nodes_joined(acc, nodes.drop_last()), nodes.last())
    }
}

/// The nodes of all pieces.
pub open spec fn all_nodes(chunks: Seq<ChunkView>) -> Seq<RawNodeView>
    decreases chunks.len(),
{
    if chunks.len() == 0 {
        Seq::empty()
    } else {
        all_nodes(chunks.drop_last()) + chunks.last().nodes
    }
}

/// The samples of all pieces.
pub open spec fn all_samples(chunks: Seq<ChunkView>) -> Seq<i64>
    decreases chunks.len(),
{
    if chunks.len() == 0 {
        Seq::empty()
    } else {
        all_samples(chunks.drop_last()) + chunks.last().samples
    }
}

/// The times of all pieces.
pub open spec fn all_deltas(chunks: Seq<ChunkView>) -> Seq<i64>
    decreases chunks.len(),
{
    if chunks.len() == 0 {
        Seq::empty()
    } else {
        all_deltas(chunks.drop_last()) + chunks.last().time_deltas
    }
}

/// The nodes with each that names a parent among that parent's children.
pub open spec fn linked(acc: Seq<CpuNodeView>, nodes: Seq<RawNodeView>) -> Seq<CpuNodeView>
    decreases nodes.len(),
{
    if nodes.len() == 0 {
        acc
    } else {
        let before = linked(acc, nodes.drop_last());
        match nodes.last().parent {
            None => before,
            Some(p) => match node_index(before, p) {
                None => before,
                Some(i) => before.update(
                    i,
                    CpuNodeView { children: entered(before[i].children, nodes.last().id), ..before[i] },
                ),
            },
        }
    }
}

/// One time per sample: those that are missing are filled in.
pub open spec fn fitted(deltas: Seq<i64>, n: nat, default: i64) -> Seq<i64> {
    Seq::new(
        n,
        |i: int|
            if i < deltas.len() {
                deltas[i]
            } else if default > 1 {
                default
            } else {
                1
            },
    )
}

/// The CPU profile that the pieces of a stream make up.
pub open spec fn stream_profile(s: StreamView, default: i64) -> CpuProfileView {
    let chunks = by_time(s.chunks);
    let nodes = all_nodes(chunks);
    let samples = all_samples(chunks);
    let deltas = fitted(all_deltas(chunks), samples.len(), default);
    let start = match s.start_time {
        Some(t) => t,
        None => 0,
    };
    CpuProfileView {
        nodes: linked(nodes_joined(Seq::empty(), nodes), nodes),
        samples,
        time_deltas: deltas,
        start_time: start,
        end_time: match s.end_time {
            Some(t) => t,
            None => clamped(start + total(deltas)),
        },
    }
}

/// The CPU profiles of the streams that have pieces, with their keys. `None` where the
/// times of one add up to more than 64 bits hold.
pub open spec fn stream_profiles(
    m: Seq<(Seq<char>, StreamView)>,
    default: i64,
) -> Option<Seq<(Seq<char>, CpuProfileView)>>
    decreases m.len(),
{
    if m.len() == 0 {
        Some(Seq::empty())
    } else {
        let s = m.last().1;
        match stream_profiles(m.drop_last(), default) {
            None => None,
            Some(before) => if s.chunks.len() == 0 {
                Some(before)
            } else {
                let p = stream_profile(s, default);
                if is_i64(total(p.time_deltas)) {
                    Some(before.push((m.last().0, p)))
                } else {
                    None
                }
            },
        }
    }
}

/// The CPU profiles of a list of events, with their keys.
pub open spec fn event_profiles(
    events: Seq<EventView>,
    default: i64,
) -> Result<Seq<(Seq<char>, CpuProfileView)>, TraceError> {
    match streams_of(events) {
        None => Err(TraceError::Event),
        Some(m) => match stream_profiles(m, default) {
            None => Err(TraceError::Overflow),
            Some(v) => Ok(v),
        },
    }
}

/// The CPU profiles of a trace, with their keys.
pub open spec fn json_profiles(
    j: JsonView,
    default: i64,
) -> Result<Seq<(Seq<char>, CpuProfileView)>, TraceError> {
    match trace_json(j) {
        None => Err(TraceError::Shape),
        Some(events) => event_profiles(events, default),
    }
}

/// The CPU profiles of the trace that a text holds, with their keys.
pub open spec fn trace_profiles(
    input: Seq<char>,
    default: i64,
) -> Result<Seq<(Seq<char>, CpuProfileView)>, TraceError> {
    match text_json(input) {
        None => Err(TraceError::Json),
        Some(j) => json_profiles(j, default),
    }
}

spec fn stream_values(m: Seq<PartialProfile>) -> Seq<(Seq<char>, StreamView)> {
    Seq::new(m.len(), |i: int| (m[i].key@, m[i].value()))
}

proof fn lemma_slot<T>(m: Seq<(Seq<char>, T)>, k: Seq<char>, i: int)
    requires
        0 <= i <= m.len(),
        forall|j: int| 0 <= j < i ==> (#[trigger] m[j]).0 != k && !text_less(k, m[j].0),
        i < m.len() ==> m[i].0 == k || text_less(k, m[i].0),
    ensures
        slot(m, k) == i,
    decreases i,
{
    if i > 0 {
        let t = m.drop_first();
        assert(m[0].0 != k && !text_less(k, m[0].0));
        assert forall|j: int| 0 <= j < i - 1 implies (#[trigger] t[j]).0 != k && !text_less(k, t[j].0) by {
            assert(m[j + 1].0 != k);
        }
        lemma_slot(t, k, i - 1);
    }
}

/// Takes an event into the stream of its key. `false` where its profile is malformed.
fn ingest(streams: &mut Vec<PartialProfile>, event: &TraceEvent) -> (ok: bool)
    ensures
        match stream_ingested(stream_values(old(streams)@), event.value()) {
            Some(m) => ok && stream_values(final(streams)@) == m,
            None => !ok,
        },
{
    let key = event.profile_key();
    let key_chars = chars_of(key.as_str());
    let ghost m0 = stream_values(streams@);
    let mut i: usize = 0;
    let mut known = false;
    while i < streams.len()
        invariant_except_break
            !known,
        invariant
            key_chars@ == key@,
            m0 == stream_values(streams@),
            streams@ == old(streams)@,
            i <= streams@.len(),
            forall|j: int| 0 <= j < i ==> (#[trigger] m0[j]).0 != key@ && !text_less(key@, m0[j].0),
        ensures
            m0 == stream_values(streams@),
            streams@ == old(streams)@,
            i <= streams@.len(),
            forall|j: int| 0 <= j < i ==> (#[trigger] m0[j]).0 != key@ && !text_less(key@, m0[j].0),
            known ==> i < streams@.len() && m0[i as int].0 == key@,
            !known && i < streams@.len() ==> m0[i as int].0 != key@ && text_less(key@, m0[i as int].0),
        decreases streams@.len() - i,
    {
        let other = chars_of(streams[i].key.as_str());
        match order_texts(key_chars.as_slice(), other.as_slice()) {
            Order::Equal => {
                known = true;
                break;
            },
            Order::Less => {
                break;
            },
            Order::Greater => {
                i += 1;
            },
        }
    }
    proof {
        lemma_slot(m0, key@, i as int);
    }
    if known {
        let ok = ingest_profile_event(&mut streams[i], event);
        proof {
            if ok {
                assert(stream_values(streams@) =~= m0.update(i as int, (key@, streams@[i as int].value())));
            }
        }
        return ok;
    }
    let ghost k = key@;
    let mut fresh = PartialProfile { key, start_time: None, end_time: None, chunks: Vec::new() };
    assert(fresh.value() =~= empty_stream());
    if !ingest_profile_event(&mut fresh, event) {
        return false;
    }
    let ghost s = fresh.value();
    streams.insert(i, fresh);
    assert(stream_values(streams@) =~= m0.insert(i as int, (k, s)));
    true
}

fn is_profile_name(name: &Option<String>) -> (r: bool)
    ensures
        r == match *name {
            Some(s) => s@ == "Profile"@ || s@ == "ProfileChunk"@,
            None => false,
        },
{
    match name {
        Some(s) => s.as_str().eq("Profile") || s.as_str().eq("ProfileChunk"),
        None => false,
    }
}

proof fn lemma_streams_fail(a: Seq<EventView>, b: Seq<EventView>)
    requires
        streams_of(a) is None,
    ensures
        streams_of(a + b) is None,
    decreases b.len(),
{
    if b.len() == 0 {
        assert(a + b =~= a);
    } else {
        lemma_streams_fail(a, b.drop_last());
        assert((a + b).drop_last() =~= a + b.drop_last());
    }
}

/// The profile streams of a list of events.
fn gather_streams(events: &Vec<TraceEvent>) -> (r: Option<Vec<PartialProfile>>)
    ensures
        match r {
            Some(m) => streams_of(event_values(events@)) == Some(stream_values(m@)),
            None => streams_of(event_values(events@)) is None,
        },
{
    let ghost v = event_values(events@);
    let mut streams: Vec<PartialProfile> = Vec::new();
    assert(stream_values(streams@) =~= Seq::<(Seq<char>, StreamView)>::empty());
    for i in 0..events.len()
        invariant
            v == event_values(events@),
            streams_of(v.take(i as int)) == Some(stream_values(streams@)),
    {
        proof {
            assert(v.take(i + 1).drop_last() =~= v.take(i as int));
            assert(v.take(i + 1).last() == events@[i as int].value());
        }
        if is_profile_name(&events[i].name) {
            if !ingest(&mut streams, &events[i]) {
                proof {
                    lemma_streams_fail(v.take(i + 1), v.skip(i + 1));
                    assert(v.take(i + 1) + v.skip(i + 1) =~= v);
                }
                return None;
            }
        }
    }
    assert(v.take(v.len() as int) =~= v);
    Some(streams)
}

/// Puts a piece behind those that are not later.
fn place_chunk(chunks: &mut Vec<ProfileChunk>, c: ProfileChunk)
    ensures
        chunk_values(final(chunks)@) == chunk_placed(chunk_values(old(chunks)@), c.value()),
{
    let ghost v = chunk_values(chunks@);
    let ghost cv = c.value();
    let mut n: usize = chunks.len();
    assert(v.take(n as int) =~= v);
    assert(v.skip(n as int) =~= Seq::<ChunkView>::empty());
    assert(chunk_placed(v.take(n as int), cv) + v.skip(n as int) =~= chunk_placed(v, cv));
    while n > 0 && chunks[n - 1].ts > c.ts
        invariant
            chunks@ == old(chunks)@,
            v == chunk_values(chunks@),
            cv == c.value(),
            n <= chunks@.len(),
            chunk_placed(v.take(n as int), cv) + v.skip(n as int) == chunk_placed(v, cv),
        decreases n,
    {
        proof {
            let last = v[n - 1];
            assert(v.take(n as int).last() == last);
            assert(v.take(n as int).drop_last() =~= v.take(n - 1));
            assert(chunk_placed(v.take(n - 1), cv).push(last) + v.skip(n as int) =~= chunk_placed(v.take(n - 1), cv)
                + v.skip(n - 1));
        }
        n -= 1;
    }
    proof {
        if n > 0 {
            assert(v.take(n as int).last() == v[n - 1]);
        }
        assert(chunk_placed(v.take(n as int), cv) == v.take(n as int).push(cv));
    }
    chunks.insert(n, c);
    assert(chunk_values(chunks@) =~= v.take(n as int).push(cv) + v.skip(n as int));
}

/// The pieces in order of time.
fn sort_chunks(chunks: Vec<ProfileChunk>) -> (r: Vec<ProfileChunk>)
    ensures
        chunk_values(r@) == by_time(chunk_values(chunks@)),
{
    let ghost v = chunk_values(chunks@);
    let mut rest = chunks;
    let mut taken: Vec<ProfileChunk> = Vec::new();
    // Turned round, so that the pieces come off the end in their order.
    while rest.len() > 0
        invariant
            rest@.len() + taken@.len() == v.len(),
            chunk_values(rest@) == v.take(rest@.len() as int),
            forall|i: int| 0 <= i < taken@.len() ==> (#[trigger] taken@[i]).value() == v[v.len() - 1 - i],
        decreases rest@.len(),
    {
        let ghost before = rest@;
        if let Some(c) = rest.pop() {
            proof {
                assert(chunk_values(before)[before.len() - 1] == c.value());
                assert(chunk_values(rest@) =~= v.take(rest@.len() as int)) by {
                    assert forall|i: int| 0 <= i < rest@.len() implies chunk_values(rest@)[i] == v[i] by {
                        assert(chunk_values(before)[i] == v[i]);
                    }
                }
            }
            taken.push(c);
        }
    }
    let mut r: Vec<ProfileChunk> = Vec::new();
    let ghost mut done: int = 0;
    assert(chunk_values(r@) =~= by_time(v.take(0)));
    while taken.len() > 0
        invariant
            0 <= done <= v.len(),
            taken@.len() == v.len() - done,
            forall|i: int| 0 <= i < taken@.len() ==> (#[trigger] taken@[i]).value() == v[v.len() - 1 - i],
            chunk_values(r@) == by_time(v.take(done)),
        decreases taken@.len(),
    {
        let ghost before = taken@;
        if let Some(c) = taken.pop() {
            proof {
                assert(before[before.len() - 1].value() == v[done]);
                assert(v.take(done + 1).drop_last() =~= v.take(done));
            }
            place_chunk(&mut r, c);
            proof {
                done = done + 1;
            }
        }
    }
    assert(v.take(done) =~= v);
    r
}

/// Adds a number to a list that lacks it.
fn push_unique(values: &mut Vec<i64>, value: i64)
    ensures
        final(values)@ == entered(old(values)@, value),
{
    for i in 0..values.len()
        invariant
            values@ == old(values)@,
            forall|k: int| 0 <= k < i ==> values@[k] != value,
    {
        if values[i] == value {
            assert(values@.contains(value));
            return;
        }
    }
    assert(!values@.contains(value));
    values.push(value);
}

proof fn lemma_node_index_same_ids(a: Seq<CpuNodeView>, b: Seq<CpuNodeView>, id: i64)
    requires
        a.len() == b.len(),
        forall|i: int| 0 <= i < a.len() ==> (#[trigger] a[i]).id == b[i].id,
    ensures
        node_index(a, id) == node_index(b, id),
    decreases a.len(),
{
    if a.len() > 0 {
        assert(a[a.len() - 1].id == b[a.len() - 1].id);
        assert forall|i: int| 0 <= i < a.drop_last().len() implies (#[trigger] a.drop_last()[i]).id
            == b.drop_last()[i].id by {
            assert(a[i].id == b[i].id);
        }
        lemma_node_index_same_ids(a.drop_last(), b.drop_last(), id);
    }
}

proof fn lemma_index_kept(m: Map<i64, usize>, a: Seq<CpuNodeView>, b: Seq<CpuNodeView>)
    requires
        indexes_nodes(m, a),
        a.len() == b.len(),
        forall|i: int| 0 <= i < a.len() ==> (#[trigger] a[i]).id == b[i].id,
    ensures
        indexes_nodes(m, b),
{
    assert forall|id: i64|
        #![trigger m.contains_key(id)]
        m.contains_key(id) == (node_index(b, id) is Some) && (m.contains_key(id) ==> node_index(b, id) == Some(
            m[id] as int,
        )) by {
        lemma_node_index_same_ids(a, b, id);
    }
}

/// Adds a node, or the children of one that is there.
fn join_node(nodes: &mut Vec<CpuNode>, by_id: &mut HashMap<i64, usize>, n: RawNode)
    requires
        indexes_nodes(old(by_id)@, node_views(old(nodes)@)),
    ensures
        node_views(final(nodes)@) == node_joined(node_views(old(nodes)@), n.value()),
        indexes_nodes(final(by_id)@, node_views(final(nodes)@)),
{
    let ghost v = node_views(nodes@);
    let ghost map = by_id@;
    let found: Option<usize> = match by_id.get(&n.id) {
        Some(i) => Some(*i),
        None => None,
    };
    proof {
        lemma_node_index(v, n.id);
        assert(map.contains_key(n.id) == (node_index(v, n.id) is Some));
    }
    match found {
        Some(i) => {
            let ghost kids = nodes@[i as int].children@;
            for j in 0..n.children.len()
                invariant
                    i < nodes@.len(),
                    nodes@.len() == v.len(),
                    v == node_views(old(nodes)@),
                    kids == v[i as int].children,
                    forall|k: int| 0 <= k < v.len() && k != i ==> (#[trigger] nodes@[k])@ == v[k],
                    nodes@[i as int].id == v[i as int].id,
                    nodes@[i as int].call_frame@ == v[i as int].call_frame,
                    nodes@[i as int].children@ == joined(kids, n.children@.take(j as int)),
            {
                assert(n.children@.take(j + 1).drop_last() =~= n.children@.take(j as int));
                push_unique(&mut nodes[i].children, n.children[j]);
            }
            proof {
                assert(n.children@.take(n.children@.len() as int) =~= n.children@);
                let w = node_views(nodes@);
                assert(w =~= node_joined(v, n.value()));
                lemma_index_kept(map, v, w);
            }
        },
        None => {
            let ghost nv = n.value();
            by_id.insert(n.id, nodes.len());
            nodes.push(CpuNode { id: n.id, call_frame: n.call_frame, children: n.children });
            proof {
                let w = node_views(nodes@);
                assert(w =~= node_joined(v, nv));
                assert(w.drop_last() =~= v);
                assert forall|id: i64|
                    #![trigger by_id@.contains_key(id)]
                    by_id@.contains_key(id) == (node_index(w, id) is Some) && (by_id@.contains_key(id) ==> node_index(
                        w,
                        id,
                    ) == Some(by_id@[id] as int)) by {
                    assert(map.contains_key(id) == (node_index(v, id) is Some));
                }
            }
        },
    }
}

/// Adds a node to the children of its parent.
fn link_node(nodes: &mut Vec<CpuNode>, by_id: &HashMap<i64, usize>, parent: i64, child: i64)
    requires
        indexes_nodes(by_id@, node_views(old(nodes)@)),
    ensures
        indexes_nodes(by_id@, node_views(final(nodes)@)),
        ({
            let before = node_views(old(nodes)@);
            node_views(final(nodes)@) == match node_index(before, parent) {
                None => before,
                Some(i) => before.update(
                    i,
                    CpuNodeView { children: entered(before[i].children, child), ..before[i] },
                ),
            }
        }),
{
    let ghost v = node_views(nodes@);
    proof {
        lemma_node_index(v, parent);
        assert(by_id@.contains_key(parent) == (node_index(v, parent) is Some));
    }
    if let Some(i) = by_id.get(&parent) {
        let at: usize = *i;
        push_unique(&mut nodes[at].children, child);
        proof {
            let w = node_views(nodes@);
            assert(w =~= v.update(
                at as int,
                CpuNodeView { children: entered(v[at as int].children, child), ..v[at as int] },
            ));
            lemma_index_kept(by_id@, v, w);
        }
    }
}

proof fn lemma_nodes_joined_more(acc: Seq<CpuNodeView>, a: Seq<RawNodeView>, b: Seq<RawNodeView>)
    ensures
        nodes_joined(nodes_joined(acc, a), b) == nodes_joined(acc, a + b),
    decreases b.len(),
{
    if b.len() == 0 {
        assert(a + b =~= a);
    } else {
        lemma_nodes_joined_more(acc, a, b.drop_last());
        assert((a + b).drop_last() =~= a + b.drop_last());
    }
}

/// The parent and the id of each node that names its parent.
spec fn links(nodes: Seq<RawNodeView>) -> Seq<(i64, i64)>
    decreases nodes.len(),
{
    if nodes.len() == 0 {
        Seq::empty()
    } else {
        match nodes.last().parent {
            Some(p) => links(nodes.drop_last()).push((p, nodes.last().id)),
            None => links(nodes.drop_last()),
        }
    }
}

spec fn linked_by(acc: Seq<CpuNodeView>, l: Seq<(i64, i64)>) -> Seq<CpuNodeView>
    decreases l.len(),
{
    if l.len() == 0 {
        acc
    } else {
        let before = linked_by(acc, l.drop_last());
        match node_index(before, l.last().0) {
            None => before,
            Some(i) => before.update(
                i,
                CpuNodeView { children: entered(before[i].children, l.last().1), ..before[i] },
            ),
        }
    }
}

proof fn lemma_linked(acc: Seq<CpuNodeView>, nodes: Seq<RawNodeView>)
    ensures
        linked(acc, nodes) == linked_by(acc, links(nodes)),
    decreases nodes.len(),
{
    if nodes.len() > 0 {
        lemma_linked(acc, nodes.drop_last());
        if nodes.last().parent is Some {
            assert(links(nodes).drop_last() =~= links(nodes.drop_last()));
        }
    }
}

proof fn lemma_links_more(a: Seq<RawNodeView>, b: Seq<RawNodeView>)
    ensures
        links(a + b) == links(a) + links(b),
    decreases b.len(),
{
    if b.len() == 0 {
        assert(a + b =~= a);
        assert(links(a) + links(b) =~= links(a));
    } else {
        lemma_links_more(a, b.drop_last());
        assert((a + b).drop_last() =~= a + b.drop_last());
        assert(links(a + b) =~= links(a) + links(b));
    }
}

/// What the pieces of a stream hold together.
struct Joined {
    nodes: Vec<CpuNode>,
    samples: Vec<i64>,
    deltas: Vec<i64>,
}

/// Puts the nodes of a piece to those that came before.
fn join_nodes(
    nodes: &mut Vec<CpuNode>,
    by_id: &mut HashMap<i64, usize>,
    more: Vec<RawNode>,
    parents: &mut Vec<(i64, i64)>,
)
    requires
        indexes_nodes(old(by_id)@, node_views(old(nodes)@)),
    ensures
        node_views(final(nodes)@) == nodes_joined(node_views(old(nodes)@), raw_node_values(more@)),
        indexes_nodes(final(by_id)@, node_views(final(nodes)@)),
        final(parents)@ == old(parents)@ + links(raw_node_values(more@)),
{
    let ghost v = raw_node_values(more@);
    let ghost acc = node_views(nodes@);
    let mut rest = more;
    let mut turned: Vec<RawNode> = Vec::new();
    // Turned round, so that the nodes come off the end in their order.
    while rest.len() > 0
        invariant
            rest@.len() + turned@.len() == v.len(),
            raw_node_values(rest@) == v.take(rest@.len() as int),
            forall|i: int| 0 <= i < turned@.len() ==> (#[trigger] turned@[i]).value() == v[v.len() - 1 - i],
        decreases rest@.len(),
    {
        let ghost before = rest@;
        if let Some(n) = rest.pop() {
            proof {
                assert(raw_node_values(before)[before.len() - 1] == n.value());
                assert forall|i: int| 0 <= i < rest@.len() implies raw_node_values(rest@)[i] == v[i] by {
                    assert(raw_node_values(before)[i] == v[i]);
                }
                assert(raw_node_values(rest@) =~= v.take(rest@.len() as int));
            }
            turned.push(n);
        }
    }
    let ghost mut done: int = 0;
    assert(parents@ =~= old(parents)@ + links(v.take(0)));
    while turned.len() > 0
        invariant
            0 <= done <= v.len(),
            turned@.len() == v.len() - done,
            forall|i: int| 0 <= i < turned@.len() ==> (#[trigger] turned@[i]).value() == v[v.len() - 1 - i],
            node_views(nodes@) == nodes_joined(acc, v.take(done)),
            indexes_nodes(by_id@, node_views(nodes@)),
            parents@ == old(parents)@ + links(v.take(done)),
        decreases turned@.len(),
    {
        let ghost before = turned@;
        if let Some(n) = turned.pop() {
            proof {
                assert(before[before.len() - 1].value() == v[done]);
                assert(v.take(done + 1).drop_last() =~= v.take(done));
            }
            if let Some(p) = n.parent {
                parents.push((p, n.id));
            }
            assert(parents@ =~= old(parents)@ + links(v.take(done + 1)));
            join_node(nodes, by_id, n);
            proof {
                done = done + 1;
            }
        }
    }
    assert(v.take(done) =~= v);
}

/// Puts the pieces of a stream together.
fn join_chunks(chunks: Vec<ProfileChunk>) -> (r: Joined)
    ensures
        ({
            let v = chunk_values(chunks@);
            let all = all_nodes(v);
            &&& node_views(r.nodes@) == linked(nodes_joined(Seq::empty(), all), all)
            &&& r.samples@ == all_samples(v)
            &&& r.deltas@ == all_deltas(v)
        }),
{
    let ghost v = chunk_values(chunks@);
    let mut nodes: Vec<CpuNode> = Vec::new();
    let mut by_id: HashMap<i64, usize> = HashMap::new();
    let mut parents: Vec<(i64, i64)> = Vec::new();
    let mut samples: Vec<i64> = Vec::new();
    let mut deltas: Vec<i64> = Vec::new();
    let mut rest = chunks;
    let mut turned: Vec<ProfileChunk> = Vec::new();
    while rest.len() > 0
        invariant
            rest@.len() + turned@.len() == v.len(),
            chunk_values(rest@) == v.take(rest@.len() as int),
            forall|i: int| 0 <= i < turned@.len() ==> (#[trigger] turned@[i]).value() == v[v.len() - 1 - i],
        decreases rest@.len(),
    {
        let ghost before = rest@;
        if let Some(c) = rest.pop() {
            proof {
                assert(chunk_values(before)[before.len() - 1] == c.value());
                assert forall|i: int| 0 <= i < rest@.len() implies chunk_values(rest@)[i] == v[i] by {
                    assert(chunk_values(before)[i] == v[i]);
                }
                assert(chunk_values(rest@) =~= v.take(rest@.len() as int));
            }
            turned.push(c);
        }
    }
    let ghost mut done: int = 0;
    assert(node_views(nodes@) =~= Seq::<CpuNodeView>::empty());
    while turned.len() > 0
        invariant
            0 <= done <= v.len(),
            turned@.len() == v.len() - done,
            forall|i: int| 0 <= i < turned@.len() ==> (#[trigger] turned@[i]).value() == v[v.len() - 1 - i],
            node_views(nodes@) == nodes_joined(Seq::empty(), all_nodes(v.take(done))),
            indexes_nodes(by_id@, node_views(nodes@)),
            parents@ == links(all_nodes(v.take(done))),
            samples@ == all_samples(v.take(done)),
            deltas@ == all_deltas(v.take(done)),
        decreases turned@.len(),
    {
        let ghost before = turned@;
        if let Some(c) = turned.pop() {
            proof {
                assert(before[before.len() - 1].value() == v[done]);
                assert(v.take(done + 1).drop_last() =~= v.take(done));
                lemma_nodes_joined_more(Seq::empty(), all_nodes(v.take(done)), v[done].nodes);
                lemma_links_more(all_nodes(v.take(done)), v[done].nodes);
            }
            let mut c = c;
            samples.append(&mut c.samples);
            deltas.append(&mut c.time_deltas);
            join_nodes(&mut nodes, &mut by_id, c.nodes, &mut parents);
            proof {
                done = done + 1;
            }
        }
    }
    assert(v.take(done) =~= v);
    let ghost all = all_nodes(v);
    let ghost acc = node_views(nodes@);
    for i in 0..parents.len()
        invariant
            parents@ == links(all),
            node_views(nodes@) == linked_by(acc, parents@.take(i as int)),
            indexes_nodes(by_id@, node_views(nodes@)),
    {
        assert(parents@.take(i + 1).drop_last() =~= parents@.take(i as int));
        let (p, c) = parents[i];
        link_node(&mut nodes, &by_id, p, c);
    }
    proof {
        assert(parents@.take(parents@.len() as int) =~= parents@);
        lemma_linked(acc, all);
    }
    Joined { nodes, samples, deltas }
}

/// One time per sample.
fn fit_deltas(deltas: &Vec<i64>, n: usize, default: i64) -> (r: Vec<i64>)
    ensures
        r@ == fitted(deltas@, n as nat, default),
{
    let fill: i64 = if default > 1 {
        default
    } else {
        1
    };
    let mut r: Vec<i64> = Vec::new();
    for i in 0..n
        invariant
            fill == (if default > 1 {
                default
            } else {
                1
            }),
            r@ == fitted(deltas@, n as nat, default).take(i as int),
    {
        if i < deltas.len() {
            r.push(deltas[i]);
        } else {
            r.push(fill);
        }
        assert(r@ =~= fitted(deltas@, n as nat, default).take(i + 1));
    }
    assert(fitted(deltas@, n as nat, default).take(n as int) =~= fitted(deltas@, n as nat, default));
    r
}

/// The sum of a list. `None` where it does not fit in 64 bits.
fn sum_i64(w: &Vec<i64>) -> (r: Option<i64>)
    ensures
        match r {
            Some(s) => total(w@) == s,
            None => !is_i64(total(w@)),
        },
{
    let mut sum: i128 = 0;
    for i in 0..w.len()
        invariant
            sum == total(w@.take(i as int)),
            -(i * 0x8000_0000_0000_0000) <= sum <= i * 0x8000_0000_0000_0000,
    {
        proof {
            assert(w@.take(i + 1).drop_last() =~= w@.take(i as int));
            assert(i * 0x8000_0000_0000_0000 < 0x7fff_ffff_ffff_ffff_ffff_ffff_ffff_ffff - 0x8000_0000_0000_0000)
                by (nonlinear_arith)
                requires
                    i < 0xffff_ffff_ffff_ffff,
            ;
        }
        sum = sum + w[i] as i128;
    }
    assert(w@.take(w@.len() as int) =~= w@);
    if fits_i64(sum) {
        Some(sum as i64)
    } else {
        None
    }
}

/// A CPU profile of a trace, with its key.
#[derive(Debug)]
pub struct ExtractedCpuProfile {
    pub key: String,
    pub profile: CpuProfile,
}

pub open spec fn extracted_values(s: Seq<ExtractedCpuProfile>) -> Seq<(Seq<char>, CpuProfileView)> {
    Seq::new(s.len(), |i: int| (s[i].key@, s[i].profile@))
}

impl PartialProfile {
    /// The CPU profile that the pieces make up. `None` where its times add up to more
    /// than 64 bits hold.
    fn into_profile(self, default: i64) -> (r: Option<ExtractedCpuProfile>)
        ensures
            ({
                let p = stream_profile(self.value(), default);
                match r {
                    Some(e) => is_i64(total(p.time_deltas)) && e.key@ == self.key@ && e.profile@ == p,
                    None => !is_i64(total(p.time_deltas)),
                }
            }),
    {
        let joined = join_chunks(sort_chunks(self.chunks));
        let deltas = fit_deltas(&joined.deltas, joined.samples.len(), default);
        let duration: i64 = match sum_i64(&deltas) {
            Some(d) => d,
            None => {
                return None;
            },
        };
        let start_time: i64 = match self.start_time {
            Some(t) => t,
            None => 0,
        };
        let end_time: i64 = match self.end_time {
            Some(t) => t,
            None => clamp(start_time as i128 + duration as i128),
        };
        let profile = CpuProfile {
            nodes: joined.nodes,
            samples: joined.samples,
            time_deltas: deltas,
            start_time,
            end_time,
        };
        Some(ExtractedCpuProfile { key: self.key, profile })
    }
}

proof fn lemma_profiles_fail(a: Seq<(Seq<char>, StreamView)>, b: Seq<(Seq<char>, StreamView)>, default: i64)
    requires
        stream_profiles(a, default) is None,
    ensures
        stream_profiles(a + b, default) is None,
    decreases b.len(),
{
    if b.len() == 0 {
        assert(a + b =~= a);
    } else {
        lemma_profiles_fail(a, b.drop_last(), default);
        assert((a + b).drop_last() =~= a + b.drop_last());
    }
}

fn finish_streams(streams: Vec<PartialProfile>, default: i64) -> (r: Option<Vec<ExtractedCpuProfile>>)
    ensures
        match r {
            Some(out) => stream_profiles(stream_values(streams@), default) == Some(extracted_values(out@)),
            None => stream_profiles(stream_values(streams@), default) is None,
        },
{
    let ghost v = stream_values(streams@);
    let mut out: Vec<ExtractedCpuProfile> = Vec::new();
    let mut rest = streams;
    let mut turned: Vec<PartialProfile> = Vec::new();
    while rest.len() > 0
        invariant
            rest@.len() + turned@.len() == v.len(),
            stream_values(rest@) == v.take(rest@.len() as int),
            forall|i: int|
                0 <= i < turned@.len() ==> ((#[trigger] turned@[i]).key@, turned@[i].value()) == v[v.len() - 1 - i],
        decreases rest@.len(),
    {
        let ghost before = rest@;
        if let Some(c) = rest.pop() {
            proof {
                assert(stream_values(before)[before.len() - 1] == (c.key@, c.value()));
                assert forall|i: int| 0 <= i < rest@.len() implies stream_values(rest@)[i] == v[i] by {
                    assert(stream_values(before)[i] == v[i]);
                }
                assert(stream_values(rest@) =~= v.take(rest@.len() as int));
            }
            turned.push(c);
        }
    }
    let ghost mut done: int = 0;
    assert(extracted_values(out@) =~= Seq::<(Seq<char>, CpuProfileView)>::empty());
    while turned.len() > 0
        invariant
            0 <= done <= v.len(),
            v == stream_values(streams@),
            turned@.len() == v.len() - done,
            forall|i: int|
                0 <= i < turned@.len() ==> ((#[trigger] turned@[i]).key@, turned@[i].value()) == v[v.len() - 1 - i],
            stream_profiles(v.take(done), default) == Some(extracted_values(out@)),
        decreases turned@.len(),
    {
        let ghost before = turned@;
        if let Some(c) = turned.pop() {
            proof {
                assert((before[before.len() - 1].key@, before[before.len() - 1].value()) == v[done]);
                assert(v.take(done + 1).drop_last() =~= v.take(done));
                assert(c.value().chunks.len() == c.chunks@.len());
            }
            if c.chunks.len() > 0 {
                match c.into_profile(default) {
                    Some(e) => {
                        let ghost b = out@;
                        out.push(e);
                        assert(extracted_values(out@) =~= extracted_values(b).push((e.key@, e.profile@)));
                    },
                    None => {
                        proof {
                            lemma_profiles_fail(v.take(done + 1), v.skip(done + 1), default);
                            assert(v.take(done + 1) + v.skip(done + 1) =~= v);
                        }
                        return None;
                    },
                }
            }
            proof {
                done = done + 1;
            }
        }
    }
    assert(v.take(done) =~= v);
    Some(out)
}

fn extract_cpu_profiles(input: &str, default: i64) -> (r: Result<Vec<ExtractedCpuProfile>, TraceError>)
    ensures
        match r {
            Ok(v) => trace_profiles(input@, default) == Ok::<Seq<(Seq<char>, CpuProfileView)>, TraceError>(
                extracted_values(v@),
            ),
            Err(e) => trace_profiles(input@, default) == Err::<Seq<(Seq<char>, CpuProfileView)>, TraceError>(e),
        },
{
    let value = match read_bytes(input.as_bytes()) {
        Some(v) => v,
        None => {
            return Err(TraceError::Json);
        },
    };
    let events = match parse_trace_events(&value) {
        Some(e) => e,
        None => {
            return Err(TraceError::Shape);
        },
    };
    let streams = match gather_streams(&events) {
        Some(s) => s,
        None => {
            return Err(TraceError::Event);
        },
    };
    match finish_streams(streams, default) {
        Some(v) => Ok(v),
        None => Err(TraceError::Overflow),
    }
}

/// What a trace holds of each profile.
pub open spec fn infos(s: Seq<(Seq<char>, CpuProfileView)>) -> Seq<(Seq<char>, int, int)> {
    Seq::new(s.len(), |i: int| (s[i].0, s[i].1.nodes.len() as int, s[i].1.samples.len() as int))
}

/// The values of a list of infos.
pub open spec fn info_values(s: Seq<ExtractedProfileInfo>) -> Seq<(Seq<char>, int, int)> {
    Seq::new(s.len(), |i: int| (s[i].key@, s[i].nodes as int, s[i].samples as int))
}

fn list_infos(v: &Vec<ExtractedCpuProfile>) -> (r: Vec<ExtractedProfileInfo>)
    ensures
        info_values(r@) == infos(extracted_values(v@)),
{
    let mut r: Vec<ExtractedProfileInfo> = Vec::new();
    let ghost want = infos(extracted_values(v@));
    assert(info_values(r@) =~= want.take(0));
    for i in 0..v.len()
        invariant
            want == infos(extracted_values(v@)),
            info_values(r@) == want.take(i as int),
    {
        let ghost before = r@;
        let one = ExtractedProfileInfo {
            key: v[i].key.clone(),
            nodes: v[i].profile.nodes.len(),
            samples: v[i].profile.samples.len(),
        };
        r.push(one);
        assert(info_values(r@) =~= info_values(before).push((one.key@, one.nodes as int, one.samples as int)));
        assert(info_values(r@) =~= want.take(i + 1));
    }
    assert(want.take(v@.len() as int) =~= want);
    r
}

/// What the list of the CPU profiles of a trace is.
pub open spec fn listed(input: Seq<char>, r: Result<Vec<ExtractedProfileInfo>, TraceError>) -> bool {
    match trace_profiles(input, 1000) {
        Ok(v) => r matches Ok(out) && info_values(out@) == infos(v),
        Err(e) => r == Err::<Vec<ExtractedProfileInfo>, TraceError>(e),
    }
}

/// The CPU profiles of a trace.
pub fn extract_profiles(input: &str) -> (r: Result<Vec<ExtractedProfileInfo>, TraceError>)
    ensures
        listed(input@, r),
{
    match extract_cpu_profiles(input, 1000) {
        Ok(v) => Ok(list_infos(&v)),
        Err(e) => Err(e),
    }
}

/// What the conversion of a profile with a demangler gives.
pub open spec fn built<D: Demangler>(
    p: CpuProfileView,
    mapping: Seq<char>,
    d: D,
    r: Result<EncodedProfile, TraceError>,
) -> bool {
    let out = cpu_profile(p, mapping, d);
    match r {
        Ok(e) => {
            &&& values_fit(p)
            &&& acyclic(p)
            &&& gzipped(profile_bytes(out)) == Some(e.encoded@)
            &&& loaded(e.encoded@) == Ok::<ProfileView, LoadError>(out)
            &&& e.stats == stats_of(out)
        },
        Err(TraceError::Build(BuildError::Overflow)) => !values_fit(p),
        Err(TraceError::Build(BuildError::Cycle)) => values_fit(p) && !acyclic(p),
        Err(TraceError::Build(BuildError::Compress)) => values_fit(p) && acyclic(p) && gzipped(
            profile_bytes(out),
        ) is None,
        _ => false,
    }
}

/// Converts one of the profiles that were extracted.
pub fn convert_extracted(profiles: Vec<ExtractedCpuProfile>, opts: &ConvertOptions) -> (r: Result<
    EncodedProfile,
    TraceError,
>)
    ensures
        converted(extracted_values(profiles@), *opts, r),
{
    let n: usize = profiles.len();
    if n == 0 {
        return Err(TraceError::NoProfile);
    }
    if opts.profile_index >= n {
        return Err(TraceError::ProfileIndex { index: opts.profile_index, profiles: n });
    }
    let infos = list_infos(&profiles);
    let mut profiles = profiles;
    let chosen = profiles.swap_remove(opts.profile_index);
    let mut builder = Builder::new(chosen.profile);
    let name: Option<String> = match &opts.mapping_filename {
        Some(s) => Some(s.clone()),
        None => None,
    };
    builder.mapping = name;
    let out = if opts.no_demangle {
        builder.demangle_with(Verbatim).encode()
    } else {
        builder.encode()
    };
    match out {
        Ok(e) => Ok(EncodedProfile { encoded: e.encoded, profiles: infos, stats: e.stats }),
        Err(e) => Err(TraceError::Build(e)),
    }
}

/// What the conversion of a list of profiles gives.
pub open spec fn converted(
    v: Seq<(Seq<char>, CpuProfileView)>,
    opts: ConvertOptions,
    r: Result<EncodedProfile, TraceError>,
) -> bool {
    if v.len() == 0 {
        r == Err::<EncodedProfile, TraceError>(TraceError::NoProfile)
    } else if opts.profile_index >= v.len() {
        r == Err::<EncodedProfile, TraceError>(
            TraceError::ProfileIndex { index: opts.profile_index, profiles: v.len() as usize },
        )
    } else {
        let p = v[opts.profile_index as int].1;
        let mapping = mapping_text(opts.mapping_filename);
        &&& r matches Ok(e) ==> info_values(e.profiles@) == infos(v)
        &&& if opts.no_demangle {
            built(p, mapping, Verbatim, r)
        } else {
            built(p, mapping, MoonBit, r)
        }
    }
}

/// What the conversion of a trace gives.
pub open spec fn trace_converted(
    input: Seq<char>,
    opts: ConvertOptions,
    r: Result<EncodedProfile, TraceError>,
) -> bool {
    match trace_profiles(input, opts.default_sample_delta_us) {
        Ok(v) => converted(v, opts, r),
        Err(e) => r == Err::<EncodedProfile, TraceError>(e),
    }
}

/// Converts one CPU profile of a Chrome trace into pprof.
pub fn convert(input: &str, opts: &ConvertOptions) -> (r: Result<EncodedProfile, TraceError>)
    ensures
        trace_converted(input@, *opts, r),
{
    match extract_cpu_profiles(input, opts.default_sample_delta_us) {
        Ok(v) => convert_extracted(v, opts),
        Err(e) => Err(e),
    }
}

} // verus!

//! What the list of a trace's CPU profiles depends on: the events, not their order.
use vstd::prelude::*;
use vstd::seq_lib::{commutative_foldr, group_to_multiset_ensures, lemma_fold_right_permutation};
use crate::chrome_trace::{
    all_nodes, all_samples, by_time, chunk_placed, event_profiles, info_values, infos,
    is_profile_event, linked, listed, nodes_joined, slot, stream_ingested, stream_profile,
    stream_profiles, streams_of, trace_converted, trace_profiles, ConvertOptions, EncodedProfile,
    ExtractedProfileInfo, TraceError,
};
use crate::cpuprofile::{
    acyclic, lemma_node_index, node_index, values_fit, BuildError, CpuNodeView, CpuProfileView,
};
use crate::folded_export::{lemma_less_not_equal, lemma_less_total, lemma_less_trans, text_less};
use crate::json_text::text_json;
use crate::trace_events::{
    chunk_json, embedded, empty_stream, event_data, event_time, ingested, profile_key, trace_json,
    ChunkView, EventView, RawNodeView, StreamView,
};

verus! {

/// Whether the keys of a list increase.
pub open spec fn keys_increase<T>(m: Seq<(Seq<char>, T)>) -> bool {
    forall|i: int, j: int| 0 <= i < j < m.len() ==> text_less(#[trigger] m[i].0, #[trigger] m[j].0)
}

/// The piece of a profile that an event carries.
pub open spec fn piece(e: EventView) -> Option<ChunkView> {
    if is_profile_event(e) {
        match ingested(empty_stream(), e) {
            Some(s) => if s.chunks.len() > 0 {
                Some(s.chunks[0])
            } else {
                None
            },
            None => None,
        }
    } else {
        None
    }
}

/// The piece of the profile with this key that an event carries.
pub open spec fn piece_of(e: EventView, key: Seq<char>) -> Option<ChunkView> {
    if profile_key(e) == key {
        piece(e)
    } else {
        None
    }
}

/// The pieces of the profile with this key.
pub open spec fn pieces(events: Seq<EventView>, key: Seq<char>) -> Seq<ChunkView>
    decreases events.len(),
{
    if events.len() == 0 {
        Seq::empty()
    } else {
        let before = pieces(events.drop_last(), key);
        match piece_of(events.last(), key) {
            Some(c) => before.push(c),
            None => before,
        }
    }
}

/// The number of samples of a piece.
pub open spec fn piece_samples(c: Option<ChunkView>) -> int {
    match c {
        Some(c) => c.samples.len() as int,
        None => 0,
    }
}

/// The number of samples that the events give to the profile with this key.
pub open spec fn sample_count(events: Seq<EventView>, key: Seq<char>) -> int {
    events.fold_right(|e: EventView, n: int| n + piece_samples(piece_of(e, key)), 0)
}

/// Whether a piece has a node of this id.
pub open spec fn names(c: ChunkView, id: i64) -> bool {
    exists|j: int| 0 <= j < c.nodes.len() && (#[trigger] c.nodes[j]).id == id
}

/// Whether one of the pieces has a node of this id.
pub open spec fn any_names(s: Seq<ChunkView>, id: i64) -> bool {
    exists|i: int| 0 <= i < s.len() && names(#[trigger] s[i], id)
}

proof fn lemma_ingested(s: StreamView, e: EventView)
    requires
        is_profile_event(e),
    ensures
        ingested(s, e) is Some <==> ingested(empty_stream(), e) is Some,
        ingested(s, e) matches Some(r) ==> r.chunks == match piece(e) {
            Some(c) => s.chunks.push(c),
            None => s.chunks,
        },
{
    match event_data(e) {
        Some(data) => match embedded(data) {
            Some(profile) => match chunk_json(data, profile, event_time(e)) {
                Some(c) => {
                    let r = ingested(empty_stream(), e).unwrap();
                    assert(r.chunks[0] == c);
                },
                None => {},
            },
            None => {},
        },
        None => {},
    }
}

/// The place of a key among increasing keys.
proof fn lemma_slot_place<T>(m: Seq<(Seq<char>, T)>, k: Seq<char>)
    requires
        keys_increase(m),
    ensures
        0 <= slot(m, k) <= m.len(),
        forall|j: int| 0 <= j < slot(m, k) ==> text_less((#[trigger] m[j]).0, k),
        forall|j: int|
            slot(m, k) <= j < m.len() && (#[trigger] m[j]).0 != k ==> text_less(k, m[j].0),
        forall|j: int| 0 <= j < m.len() && (#[trigger] m[j]).0 == k ==> j == slot(m, k),
    decreases m.len(),
{
    if m.len() > 0 {
        let t = m.drop_first();
        assert forall|i: int, j: int| 0 <= i < j < t.len() implies text_less(#[trigger] t[i].0, #[trigger] t[j].0) by {
            assert(text_less(m[i + 1].0, m[j + 1].0));
        }
        lemma_slot_place(t, k);
        lemma_less_total(k, m[0].0);
        if m[0].0 == k || text_less(k, m[0].0) {
            assert forall|j: int| 0 <= j < m.len() && (#[trigger] m[j]).0 != k implies text_less(k, m[j].0) by {
                if j > 0 {
                    assert(text_less(m[0].0, m[j].0));
                    if m[0].0 != k {
                        lemma_less_trans(k, m[0].0, m[j].0);
                    }
                }
            }
            assert forall|j: int| 0 <= j < m.len() && (#[trigger] m[j]).0 == k implies j == 0 by {
                if j > 0 {
                    assert(text_less(m[0].0, m[j].0));
                    lemma_less_not_equal(m[0].0, m[j].0);
                }
            }
        } else {
            assert forall|j: int| 0 <= j < slot(m, k) implies text_less((#[trigger] m[j]).0, k) by {
                if j > 0 {
                    assert(m[j] == t[j - 1]);
                }
            }
            assert forall|j: int| slot(m, k) <= j < m.len() && (#[trigger] m[j]).0 != k implies text_less(
                k,
                m[j].0,
            ) by {
                assert(m[j] == t[j - 1]);
            }
            assert forall|j: int| 0 <= j < m.len() && (#[trigger] m[j]).0 == k implies j == slot(m, k) by {
                assert(m[j] == t[j - 1]);
            }
        }
    }
}

/// Whether streams are those of the events: their keys increase, each holds the pieces of
/// its key, and no piece is missing.
spec fn streams_fit(m: Seq<(Seq<char>, StreamView)>, events: Seq<EventView>) -> bool {
    &&& keys_increase(m)
    &&& forall|i: int| 0 <= i < m.len() ==> (#[trigger] m[i]).1.chunks == pieces(events, m[i].0)
    &&& forall|k: Seq<char>|
        (#[trigger] pieces(events, k)).len() > 0 ==> has_key(m, k)
}

proof fn lemma_stream_ingested(m: Seq<(Seq<char>, StreamView)>, events: Seq<EventView>)
    requires
        events.len() > 0,
        streams_fit(m, events.drop_last()),
        is_profile_event(events.last()),
    ensures
        stream_ingested(m, events.last()) matches Some(r) ==> streams_fit(r, events),
{
    let e = events.last();
    let front = events.drop_last();
    let k = profile_key(e);
    let i = slot(m, k);
    lemma_slot_place(m, k);
    let known = i < m.len() && m[i].0 == k;
    let s = if known {
        m[i].1
    } else {
        empty_stream()
    };
    if !known {
        assert(pieces(front, k).len() == 0);
        assert(pieces(front, k) =~= Seq::<ChunkView>::empty());
    }
    lemma_ingested(s, e);
    if let Some(r) = stream_ingested(m, e) {
        let next = ingested(s, e).unwrap();
        assert(next.chunks == pieces(events, k));
        assert(r[i] == (k, next));
        assert forall|a: int, b: int| 0 <= a < b < r.len() implies text_less(#[trigger] r[a].0, #[trigger] r[b].0) by {
            let x = if known || a < i {
                a
            } else {
                a - 1
            };
            let y = if known || b < i {
                b
            } else {
                b - 1
            };
            if known || (a != i && b != i) {
                assert(r[a].0 == m[x].0 && r[b].0 == m[y].0);
            } else if a == i {
                assert(r[b].0 == m[y].0);
                assert(m[y].0 != k);
            } else {
                assert(r[a].0 == m[a].0);
            }
        }
        assert forall|a: int| 0 <= a < r.len() implies (#[trigger] r[a]).1.chunks == pieces(events, r[a].0) by {
            if a != i {
                let x = if known || a < i {
                    a
                } else {
                    a - 1
                };
                assert(r[a] == m[x]);
                assert(m[x].0 != k);
            }
        }
        assert forall|key: Seq<char>| (#[trigger] pieces(events, key)).len() > 0 implies has_key(r, key) by {
            if key == k {
                assert(r[i].0 == key);
            } else {
                assert(pieces(front, key).len() > 0);
                assert(has_key(m, key));
                let a = choose|a: int| 0 <= a < m.len() && (#[trigger] m[a]).0 == key;
                let x = if known || a < i {
                    a
                } else {
                    a + 1
                };
                assert(r[x] == m[a]);
            }
        }
    }
}

proof fn lemma_streams(events: Seq<EventView>)
    ensures
        streams_of(events) matches Some(m) ==> streams_fit(m, events),
    decreases events.len(),
{
    if events.len() > 0 {
        let front = events.drop_last();
        lemma_streams(front);
        if let Some(m) = streams_of(front) {
            if is_profile_event(events.last()) {
                lemma_stream_ingested(m, events);
            } else {
                assert forall|k: Seq<char>| #[trigger] pieces(events, k) == pieces(front, k) by {}
                assert(streams_fit(m, events));
            }
        }
    }
}

/// Whether a profile is that of one of the streams that have pieces.
spec fn is_made(x: (Seq<char>, CpuProfileView), m: Seq<(Seq<char>, StreamView)>, default: i64) -> bool {
    exists|j: int|
        0 <= j < m.len() && (#[trigger] m[j]).1.chunks.len() > 0 && x == (m[j].0, stream_profile(m[j].1, default))
}

/// Whether a key is listed.
spec fn has_key<T>(v: Seq<(Seq<char>, T)>, k: Seq<char>) -> bool {
    exists|i: int| 0 <= i < v.len() && (#[trigger] v[i]).0 == k
}

/// Whether profiles are those of the streams that have pieces.
spec fn profiles_fit(
    v: Seq<(Seq<char>, CpuProfileView)>,
    m: Seq<(Seq<char>, StreamView)>,
    default: i64,
) -> bool {
    &&& keys_increase(v)
    &&& forall|i: int| 0 <= i < v.len() ==> #[trigger] is_made(v[i], m, default)
    &&& forall|j: int| 0 <= j < m.len() && m[j].1.chunks.len() > 0 ==> #[trigger] has_key(v, m[j].0)
}

proof fn lemma_profiles(m: Seq<(Seq<char>, StreamView)>, default: i64)
    requires
        keys_increase(m),
    ensures
        stream_profiles(m, default) matches Some(v) ==> profiles_fit(v, m, default),
    decreases m.len(),
{
    if m.len() > 0 && stream_profiles(m, default) is Some {
        let front = m.drop_last();
        let n = m.len() - 1;
        assert forall|i: int, j: int| 0 <= i < j < front.len() implies text_less(
            #[trigger] front[i].0,
            #[trigger] front[j].0,
        ) by {
            assert(text_less(m[i].0, m[j].0));
        }
        lemma_profiles(front, default);
        let u = stream_profiles(front, default).unwrap();
        let v = stream_profiles(m, default).unwrap();
        assert forall|i: int| 0 <= i < v.len() implies #[trigger] is_made(v[i], m, default) by {
            if i < u.len() {
                assert(v[i] == u[i]);
                assert(is_made(u[i], front, default));
                let j = choose|j: int|
                    0 <= j < front.len() && (#[trigger] front[j]).1.chunks.len() > 0 && u[i] == (
                        front[j].0,
                        stream_profile(front[j].1, default),
                    );
                assert(m[j] == front[j]);
            } else {
                assert(v[i] == (m[n].0, stream_profile(m[n].1, default)));
            }
        }
        assert forall|j: int| 0 <= j < m.len() && m[j].1.chunks.len() > 0 implies #[trigger] has_key(v, m[j].0) by {
            if j < n {
                assert(front[j] == m[j]);
                assert(has_key(u, front[j].0));
                let i = choose|i: int| 0 <= i < u.len() && (#[trigger] u[i]).0 == front[j].0;
                assert(v[i] == u[i]);
            } else {
                assert(v[u.len() as int].0 == m[j].0);
            }
        }
        assert forall|a: int, b: int| 0 <= a < b < v.len() implies text_less(#[trigger] v[a].0, #[trigger] v[b].0) by {
            assert(v[a] == u[a]);
            if b < u.len() {
                assert(u[b] == v[b]);
            } else {
                assert(is_made(u[a], front, default));
                let j = choose|j: int|
                    0 <= j < front.len() && (#[trigger] front[j]).1.chunks.len() > 0 && u[a] == (
                        front[j].0,
                        stream_profile(front[j].1, default),
                    );
                assert(front[j] == m[j]);
                assert(text_less(m[j].0, m[n].0));
            }
        }
    }
}

proof fn lemma_placed(s: Seq<ChunkView>, c: ChunkView)
    ensures
        chunk_placed(s, c).len() == s.len() + 1,
        all_samples(chunk_placed(s, c)).len() == all_samples(s).len() + c.samples.len(),
        forall|id: i64| #[trigger] any_names(chunk_placed(s, c), id) <==> any_names(s, id) || names(c, id),
    decreases s.len(),
{
    let r = chunk_placed(s, c);
    if s.len() == 0 || s.last().ts <= c.ts {
        assert(r.drop_last() =~= s);
        lemma_names_push(s, c);
    } else {
        let front = s.drop_last();
        lemma_placed(front, c);
        assert(r.drop_last() =~= chunk_placed(front, c));
        lemma_names_push(chunk_placed(front, c), s.last());
        lemma_names_push(front, s.last());
        assert(front.push(s.last()) =~= s);
    }
}

proof fn lemma_names_push(s: Seq<ChunkView>, c: ChunkView)
    ensures
        forall|id: i64| #[trigger] any_names(s.push(c), id) <==> any_names(s, id) || names(c, id),
{
    let r = s.push(c);
    assert forall|id: i64| #[trigger] any_names(r, id) <==> any_names(s, id) || names(c, id) by {
        if any_names(s, id) {
            let i = choose|i: int| 0 <= i < s.len() && names(#[trigger] s[i], id);
            assert(names(r[i], id));
        }
        if names(c, id) {
            assert(names(r[s.len() as int], id));
        }
        if any_names(r, id) {
            let i = choose|i: int| 0 <= i < r.len() && names(#[trigger] r[i], id);
            if i < s.len() {
                assert(names(s[i], id));
            }
        }
    }
}

proof fn lemma_by_time(s: Seq<ChunkView>)
    ensures
        all_samples(by_time(s)).len() == all_samples(s).len(),
        forall|id: i64| #[trigger] any_names(by_time(s), id) <==> any_names(s, id),
    decreases s.len(),
{
    if s.len() > 0 {
        let front = s.drop_last();
        lemma_by_time(front);
        lemma_placed(by_time(front), s.last());
        lemma_names_push(front, s.last());
        assert(front.push(s.last()) =~= s);
    }
}

/// Whether there is a node of this id.
spec fn has_id(nodes: Seq<RawNodeView>, id: i64) -> bool {
    exists|i: int| 0 <= i < nodes.len() && (#[trigger] nodes[i]).id == id
}

proof fn lemma_all_nodes(s: Seq<ChunkView>, id: i64)
    ensures
        has_id(all_nodes(s), id) <==> any_names(s, id),
    decreases s.len(),
{
    if s.len() > 0 {
        let front = s.drop_last();
        lemma_all_nodes(front, id);
        lemma_names_push(front, s.last());
        assert(front.push(s.last()) =~= s);
        let a = all_nodes(front);
        let b = s.last().nodes;
        let r = all_nodes(s);
        if has_id(a, id) {
            let i = choose|i: int| 0 <= i < a.len() && (#[trigger] a[i]).id == id;
            assert(r[i].id == id);
        }
        if names(s.last(), id) {
            let i = choose|i: int| 0 <= i < b.len() && (#[trigger] b[i]).id == id;
            assert(r[a.len() + i].id == id);
        }
        if has_id(r, id) {
            let i = choose|i: int| 0 <= i < r.len() && (#[trigger] r[i]).id == id;
            if i < a.len() {
                assert(a[i].id == id);
            } else {
                assert(b[i - a.len()].id == id);
            }
        }
    } else {
        assert(!any_names(s, id));
    }
}

/// The ids of nodes.
pub open spec fn node_ids(nodes: Seq<CpuNodeView>) -> Seq<i64> {
    Seq::new(nodes.len(), |i: int| nodes[i].id)
}

proof fn lemma_no_index(nodes: Seq<CpuNodeView>, id: i64)
    requires
        node_index(nodes, id) is None,
    ensures
        !node_ids(nodes).contains(id),
    decreases nodes.len(),
{
    if nodes.len() > 0 {
        let front = nodes.drop_last();
        lemma_no_index(front, id);
        if node_ids(nodes).contains(id) {
            let i = choose|i: int| 0 <= i < nodes.len() && node_ids(nodes)[i] == id;
            assert(node_ids(front)[i] == id);
        }
    }
}

proof fn lemma_joined_ids(nodes: Seq<RawNodeView>)
    ensures
        node_ids(nodes_joined(Seq::empty(), nodes)).no_duplicates(),
        forall|id: i64|
            #[trigger] node_ids(nodes_joined(Seq::empty(), nodes)).contains(id) <==> has_id(nodes, id),
    decreases nodes.len(),
{
    let all = nodes_joined(Seq::empty(), nodes);
    if nodes.len() > 0 {
        let front = nodes.drop_last();
        let n = nodes.last();
        let acc = nodes_joined(Seq::empty(), front);
        lemma_joined_ids(front);
        lemma_node_index(acc, n.id);
        let ids = node_ids(acc);
        if let Some(i) = node_index(acc, n.id) {
            assert(ids[i] == n.id);
            assert(node_ids(all) =~= ids);
            assert(ids.contains(n.id));
        } else {
            lemma_no_index(acc, n.id);
            assert(node_ids(all) =~= ids.push(n.id));
        }
        assert forall|id: i64| #[trigger] node_ids(all).contains(id) <==> has_id(nodes, id) by {
            assert(ids.contains(id) <==> has_id(front, id));
            if has_id(front, id) {
                let i = choose|i: int| 0 <= i < front.len() && (#[trigger] front[i]).id == id;
                assert(nodes[i].id == id);
                let j = choose|j: int| 0 <= j < ids.len() && ids[j] == id;
                assert(node_ids(all)[j] == id);
            }
            if id == n.id {
                assert(nodes[nodes.len() - 1].id == id);
                if node_index(acc, id) is None {
                    assert(node_ids(all)[ids.len() as int] == id);
                }
            }
            if has_id(nodes, id) && id != n.id {
                let i = choose|i: int| 0 <= i < nodes.len() && (#[trigger] nodes[i]).id == id;
                assert(front[i].id == id);
            }
            if node_ids(all).contains(id) && id != n.id {
                let j = choose|j: int| 0 <= j < node_ids(all).len() && node_ids(all)[j] == id;
                assert(ids[j] == id);
            }
        }
    } else {
        assert forall|id: i64| #[trigger] node_ids(all).contains(id) <==> has_id(nodes, id) by {}
    }
}

proof fn lemma_linked_ids(acc: Seq<CpuNodeView>, nodes: Seq<RawNodeView>)
    ensures
        node_ids(linked(acc, nodes)) == node_ids(acc),
    decreases nodes.len(),
{
    if nodes.len() > 0 {
        let before = linked(acc, nodes.drop_last());
        lemma_linked_ids(acc, nodes.drop_last());
        if let Some(p) = nodes.last().parent {
            lemma_node_index(before, p);
        }
        assert(node_ids(linked(acc, nodes)) =~= node_ids(before));
    }
}

proof fn lemma_stream_profile(s: StreamView, default: i64)
    ensures
        stream_profile(s, default).samples.len() == all_samples(s.chunks).len(),
        node_ids(stream_profile(s, default).nodes).no_duplicates(),
        forall|id: i64|
            #[trigger] node_ids(stream_profile(s, default).nodes).contains(id) <==> any_names(s.chunks, id),
{
    let chunks = by_time(s.chunks);
    let nodes = all_nodes(chunks);
    lemma_by_time(s.chunks);
    lemma_joined_ids(nodes);
    lemma_linked_ids(nodes_joined(Seq::empty(), nodes), nodes);
    let ids = node_ids(stream_profile(s, default).nodes);
    assert forall|id: i64| #[trigger] ids.contains(id) <==> any_names(s.chunks, id) by {
        lemma_all_nodes(chunks, id);
        assert(node_ids(nodes_joined(Seq::empty(), nodes)).contains(id) <==> has_id(nodes, id));
    }
}

proof fn lemma_pieces(events: Seq<EventView>, key: Seq<char>)
    ensures
        all_samples(pieces(events, key)).len() == sample_count(events, key),
        forall|c: ChunkView|
            #[trigger] pieces(events, key).contains(c) <==> exists|i: int|
                0 <= i < events.len() && piece_of(#[trigger] events[i], key) == Some(c),
    decreases events.len(),
{
    if events.len() > 0 {
        let front = events.drop_last();
        let e = events.last();
        lemma_pieces(front, key);
        let p = pieces(front, key);
        let r = pieces(events, key);
        lemma_fold_one(front, e, key);
        assert(front.push(e) =~= events);
        if let Some(c) = piece_of(e, key) {
            assert(r.drop_last() =~= p);
        }
        assert forall|c: ChunkView| #[trigger] r.contains(c) <==> exists|i: int|
            0 <= i < events.len() && piece_of(#[trigger] events[i], key) == Some(c) by {
            assert(p.contains(c) <==> exists|i: int|
                0 <= i < front.len() && piece_of(#[trigger] front[i], key) == Some(c));
            if p.contains(c) {
                let k = choose|k: int| 0 <= k < p.len() && p[k] == c;
                assert(r[k] == c);
                let i = choose|i: int| 0 <= i < front.len() && piece_of(#[trigger] front[i], key) == Some(c);
                assert(events[i] == front[i]);
            }
            if piece_of(e, key) == Some(c) {
                assert(r[p.len() as int] == c);
                assert(events[events.len() - 1] == e);
            }
            if r.contains(c) && piece_of(e, key) != Some(c) {
                let k = choose|k: int| 0 <= k < r.len() && r[k] == c;
                assert(p[k] == c);
            }
            if exists|i: int| 0 <= i < events.len() && piece_of(#[trigger] events[i], key) == Some(c) {
                let i = choose|i: int| 0 <= i < events.len() && piece_of(#[trigger] events[i], key) == Some(c);
                if i < front.len() {
                    assert(front[i] == events[i]);
                }
            }
        }
    }
}

proof fn lemma_fold_one(front: Seq<EventView>, e: EventView, key: Seq<char>)
    ensures
        sample_count(front.push(e), key) == sample_count(front, key) + piece_samples(piece_of(e, key)),
{
    let f = |e: EventView, n: int| n + piece_samples(piece_of(e, key));
    let all = front.push(e);
    assert(all.drop_last() =~= front);
    assert(all.fold_right(f, 0) == front.fold_right(f, f(e, 0)));
    lemma_fold_start(front, key, 0, piece_samples(piece_of(e, key)));
}

proof fn lemma_fold_start(s: Seq<EventView>, key: Seq<char>, a: int, b: int)
    ensures
        ({
            let f = |e: EventView, n: int| n + piece_samples(piece_of(e, key));
            s.fold_right(f, a + b) == s.fold_right(f, a) + b
        }),
    decreases s.len(),
{
    let f = |e: EventView, n: int| n + piece_samples(piece_of(e, key));
    if s.len() > 0 {
        let x = piece_samples(piece_of(s.last(), key));
        lemma_fold_start(s.drop_last(), key, a + x, b);
        assert(a + b + x == a + x + b);
    }
}

proof fn lemma_same_pieces(a: Seq<EventView>, b: Seq<EventView>, key: Seq<char>)
    requires
        a.to_multiset() == b.to_multiset(),
    ensures
        all_samples(pieces(a, key)).len() == all_samples(pieces(b, key)).len(),
        forall|c: ChunkView| pieces(a, key).contains(c) ==> #[trigger] pieces(b, key).contains(c),
{
    broadcast use group_to_multiset_ensures;

    let f = |e: EventView, n: int| n + piece_samples(piece_of(e, key));
    assert(commutative_foldr(f));
    lemma_fold_right_permutation(a, b, f, 0);
    lemma_pieces(a, key);
    lemma_pieces(b, key);
    assert forall|c: ChunkView| pieces(a, key).contains(c) implies #[trigger] pieces(b, key).contains(c) by {
        let i = choose|i: int| 0 <= i < a.len() && piece_of(#[trigger] a[i], key) == Some(c);
        assert(a.contains(a[i]));
        assert(b.to_multiset().count(a[i]) > 0);
        let j = choose|j: int| 0 <= j < b.len() && b[j] == a[i];
        assert(piece_of(b[j], key) == Some(c));
    }
}

proof fn lemma_any_names(s: Seq<ChunkView>, t: Seq<ChunkView>, id: i64)
    requires
        forall|c: ChunkView| s.contains(c) ==> #[trigger] t.contains(c),
        any_names(s, id),
    ensures
        any_names(t, id),
{
    let i = choose|i: int| 0 <= i < s.len() && names(#[trigger] s[i], id);
    assert(s.contains(s[i]));
    assert(t.contains(s[i]));
    let j = choose|j: int| 0 <= j < t.len() && t[j] == s[i];
    assert(names(t[j], id));
}

/// Profiles of one key that the same events make up have the same counts.
proof fn lemma_same_counts(
    a: Seq<EventView>,
    b: Seq<EventView>,
    s: StreamView,
    t: StreamView,
    key: Seq<char>,
    da: i64,
    db: i64,
)
    requires
        a.to_multiset() == b.to_multiset(),
        s.chunks == pieces(a, key),
        t.chunks == pieces(b, key),
    ensures
        stream_profile(s, da).samples.len() == stream_profile(t, db).samples.len(),
        stream_profile(s, da).nodes.len() == stream_profile(t, db).nodes.len(),
{
    lemma_same_pieces(a, b, key);
    lemma_same_pieces(b, a, key);
    lemma_stream_profile(s, da);
    lemma_stream_profile(t, db);
    let x = node_ids(stream_profile(s, da).nodes);
    let y = node_ids(stream_profile(t, db).nodes);
    assert forall|id: i64| x.contains(id) <==> y.contains(id) by {
        assert(x.contains(id) <==> any_names(s.chunks, id));
        assert(y.contains(id) <==> any_names(t.chunks, id));
        if any_names(s.chunks, id) {
            lemma_any_names(s.chunks, t.chunks, id);
        }
        if any_names(t.chunks, id) {
            lemma_any_names(t.chunks, s.chunks, id);
        }
    }
    x.unique_seq_to_set();
    y.unique_seq_to_set();
    assert(x.to_set() =~= y.to_set()) by {
        assert forall|id: i64| x.to_set().contains(id) <==> y.to_set().contains(id) by {
            assert(x.contains(id) <==> y.contains(id));
        }
    }
}

/// The keys of a list.
spec fn keys_of<T>(m: Seq<(Seq<char>, T)>) -> Seq<Seq<char>> {
    Seq::new(m.len(), |i: int| m[i].0)
}

spec fn texts_increase(s: Seq<Seq<char>>) -> bool {
    forall|i: int, j: int| 0 <= i < j < s.len() ==> text_less(#[trigger] s[i], #[trigger] s[j])
}

/// The last of increasing texts is above all others.
proof fn lemma_last_text(s: Seq<Seq<char>>, k: Seq<char>)
    requires
        texts_increase(s),
        s.contains(k),
    ensures
        k == s.last() || text_less(k, s.last()),
        k != s.last() ==> s.drop_last().contains(k),
        texts_increase(s.drop_last()),
        !s.drop_last().contains(s.last()),
{
    let n = s.len() - 1;
    let front = s.drop_last();
    let i = choose|i: int| 0 <= i < s.len() && s[i] == k;
    if i < n {
        assert(text_less(s[i], s[n]));
        assert(front[i] == k);
    }
    assert forall|a: int, b: int| 0 <= a < b < front.len() implies text_less(#[trigger] front[a], #[trigger] front[b]) by {
        assert(text_less(s[a], s[b]));
    }
    if front.contains(s.last()) {
        let j = choose|j: int| 0 <= j < front.len() && front[j] == s.last();
        assert(text_less(s[j], s[n]));
        lemma_less_not_equal(s[j], s[n]);
    }
}

proof fn lemma_same_texts(a: Seq<Seq<char>>, b: Seq<Seq<char>>)
    requires
        texts_increase(a),
        texts_increase(b),
        forall|k: Seq<char>| #[trigger] a.contains(k) <==> b.contains(k),
    ensures
        a == b,
    decreases a.len(),
{
    if a.len() == 0 {
        if b.len() > 0 {
            assert(b.contains(b[0]));
            assert(a.contains(b[0]));
        }
        assert(a =~= b);
    } else {
        let x = a.last();
        assert(a.contains(x));
        assert(b.contains(x));
        let y = b.last();
        assert(b.contains(y));
        assert(a.contains(y));
        lemma_last_text(a, y);
        lemma_last_text(b, x);
        if x != y {
            lemma_less_not_equal(x, y);
        }
        let af = a.drop_last();
        let bf = b.drop_last();
        assert forall|k: Seq<char>| #[trigger] af.contains(k) <==> bf.contains(k) by {
            if af.contains(k) {
                let i = choose|i: int| 0 <= i < af.len() && af[i] == k;
                assert(a[i] == k);
                assert(a.contains(k));
                lemma_last_text(b, k);
            }
            if bf.contains(k) {
                let i = choose|i: int| 0 <= i < bf.len() && bf[i] == k;
                assert(b[i] == k);
                assert(a.contains(k));
                lemma_last_text(a, k);
            }
        }
        lemma_same_texts(af, bf);
        assert(a =~= af.push(x));
        assert(b =~= bf.push(y));
    }
}

/// The keys of the profiles of a trace increase, so no key is listed twice.
pub proof fn law_keys_increase(events: Seq<EventView>, default: i64)
    ensures
        event_profiles(events, default) matches Ok(v) ==> keys_increase(v),
{
    lemma_streams(events);
    if let Some(m) = streams_of(events) {
        lemma_profiles(m, default);
    }
}

/// What is known of the profile at a place of the list.
proof fn lemma_listed(events: Seq<EventView>, default: i64, i: int) -> (s: StreamView)
    requires
        event_profiles(events, default) is Ok,
        0 <= i < event_profiles(events, default).unwrap().len(),
    ensures
        s.chunks.len() > 0,
        s.chunks == pieces(events, event_profiles(events, default).unwrap()[i].0),
        event_profiles(events, default).unwrap()[i].1 == stream_profile(s, default),
{
    let m = streams_of(events).unwrap();
    let v = event_profiles(events, default).unwrap();
    lemma_streams(events);
    lemma_profiles(m, default);
    assert(is_made(v[i], m, default));
    let x = choose|j: int|
        0 <= j < m.len() && (#[trigger] m[j]).1.chunks.len() > 0 && v[i] == (
            m[j].0,
            stream_profile(m[j].1, default),
        );
    m[x].1
}

proof fn lemma_listed_in(a: Seq<EventView>, b: Seq<EventView>, da: i64, db: i64, k: Seq<char>)
    requires
        a.to_multiset() == b.to_multiset(),
        event_profiles(a, da) is Ok,
        event_profiles(b, db) is Ok,
        keys_of(event_profiles(a, da).unwrap()).contains(k),
    ensures
        keys_of(event_profiles(b, db).unwrap()).contains(k),
{
    let mb = streams_of(b).unwrap();
    let v = event_profiles(a, da).unwrap();
    let w = event_profiles(b, db).unwrap();
    lemma_streams(b);
    lemma_profiles(mb, db);
    let i = choose|i: int| 0 <= i < v.len() && keys_of(v)[i] == k;
    let s = lemma_listed(a, da, i);
    lemma_same_pieces(a, b, k);
    assert(pieces(a, k).contains(pieces(a, k)[0]));
    assert(pieces(b, k).contains(pieces(a, k)[0]));
    assert(pieces(b, k).len() > 0);
    assert(has_key(mb, k));
    let y = choose|y: int| 0 <= y < mb.len() && (#[trigger] mb[y]).0 == k;
    assert(mb[y].1.chunks == pieces(b, k));
    assert(has_key(w, mb[y].0));
    let j = choose|j: int| 0 <= j < w.len() && (#[trigger] w[j]).0 == mb[y].0;
    assert(keys_of(w)[j] == k);
}

proof fn lemma_texts_increase<T>(m: Seq<(Seq<char>, T)>)
    requires
        keys_increase(m),
    ensures
        texts_increase(keys_of(m)),
{
    let k = keys_of(m);
    assert forall|i: int, j: int| 0 <= i < j < k.len() implies text_less(#[trigger] k[i], #[trigger] k[j]) by {
        assert(text_less(m[i].0, m[j].0));
    }
}

/// The list of a trace's profiles, with the numbers of their nodes and samples, does not
/// depend on the order of the events, nor on the time that is filled in where the trace
/// gives none. It is there unless the times of a profile add up to more than 64 bits hold,
/// or an event is malformed, which no order changes.
pub proof fn law_event_order(a: Seq<EventView>, b: Seq<EventView>, da: i64, db: i64)
    requires
        a.to_multiset() == b.to_multiset(),
    ensures
        event_profiles(a, da) == Err::<Seq<(Seq<char>, CpuProfileView)>, TraceError>(TraceError::Event)
            <==> event_profiles(b, db) == Err::<Seq<(Seq<char>, CpuProfileView)>, TraceError>(TraceError::Event),
        event_profiles(a, da) matches Ok(v) ==> event_profiles(b, db) matches Ok(w) ==> infos(v) == infos(w),
{
    lemma_malformed(a);
    lemma_malformed(b);
    lemma_malformed_kept(a, b);
    lemma_malformed_kept(b, a);
    if event_profiles(a, da) is Ok && event_profiles(b, db) is Ok {
        let v = event_profiles(a, da).unwrap();
        let w = event_profiles(b, db).unwrap();
        law_keys_increase(a, da);
        law_keys_increase(b, db);
        lemma_texts_increase(v);
        lemma_texts_increase(w);
        assert forall|k: Seq<char>| #[trigger] keys_of(v).contains(k) <==> keys_of(w).contains(k) by {
            if keys_of(v).contains(k) {
                lemma_listed_in(a, b, da, db, k);
            }
            if keys_of(w).contains(k) {
                lemma_listed_in(b, a, db, da, k);
            }
        }
        lemma_same_texts(keys_of(v), keys_of(w));
        assert(v.len() == keys_of(v).len() && w.len() == keys_of(w).len());
        assert forall|i: int| 0 <= i < v.len() implies #[trigger] infos(v)[i] == infos(w)[i] by {
            assert(keys_of(v)[i] == keys_of(w)[i]);
            let s = lemma_listed(a, da, i);
            let t = lemma_listed(b, db, i);
            lemma_same_counts(a, b, s, t, v[i].0, da, db);
        }
        assert(infos(v) =~= infos(w));
    }
}

/// Whether an event's profile is malformed.
pub open spec fn malformed(e: EventView) -> bool {
    is_profile_event(e) && ingested(empty_stream(), e) is None
}

pub open spec fn any_malformed(events: Seq<EventView>) -> bool {
    exists|i: int| 0 <= i < events.len() && malformed(#[trigger] events[i])
}

proof fn lemma_malformed(events: Seq<EventView>)
    ensures
        streams_of(events) is None <==> any_malformed(events),
    decreases events.len(),
{
    if events.len() > 0 {
        let front = events.drop_last();
        let e = events.last();
        lemma_malformed(front);
        if any_malformed(front) {
            let i = choose|i: int| 0 <= i < front.len() && malformed(#[trigger] front[i]);
            assert(malformed(events[i]));
        }
        if malformed(e) {
            assert(malformed(events[events.len() - 1]));
        }
        if any_malformed(events) {
            let i = choose|i: int| 0 <= i < events.len() && malformed(#[trigger] events[i]);
            if i < front.len() {
                assert(malformed(front[i]));
            }
        }
        if let Some(m) = streams_of(front) {
            if is_profile_event(e) {
                let i = slot(m, profile_key(e));
                lemma_ingested(
                    if i < m.len() && m[i].0 == profile_key(e) {
                        m[i].1
                    } else {
                        empty_stream()
                    },
                    e,
                );
            }
        }
    } else {
        assert(!any_malformed(events));
    }
}

proof fn lemma_malformed_kept(a: Seq<EventView>, b: Seq<EventView>)
    requires
        a.to_multiset() == b.to_multiset(),
    ensures
        any_malformed(a) ==> any_malformed(b),
{
    broadcast use group_to_multiset_ensures;

    if any_malformed(a) {
        let i = choose|i: int| 0 <= i < a.len() && malformed(#[trigger] a[i]);
        assert(a.contains(a[i]));
        assert(b.to_multiset().count(a[i]) > 0);
        let j = choose|j: int| 0 <= j < b.len() && b[j] == a[i];
        assert(malformed(b[j]));
    }
}

/// Whether a profile has no cycle and its times fit in 64 bits.
pub open spec fn is_sound(p: CpuProfileView) -> bool {
    acyclic(p) && values_fit(p)
}

/// A trace of sound profiles is refused exactly where the index asks for more of them than
/// are listed, and otherwise comes with that list, whatever the options. Only compression
/// may still fail.
pub proof fn law_convert_by_index(
    input: Seq<char>,
    opts: ConvertOptions,
    r: Result<EncodedProfile, TraceError>,
    list: Result<Vec<ExtractedProfileInfo>, TraceError>,
)
    requires
        trace_converted(input, opts, r),
        listed(input, list),
        trace_profiles(input, 1000) is Ok,
        trace_profiles(input, opts.default_sample_delta_us) matches Ok(v) && forall|i: int|
            0 <= i < v.len() ==> is_sound((#[trigger] v[i]).1),
    ensures
        list is Ok,
        (r is Err && r != Err::<EncodedProfile, TraceError>(TraceError::Build(BuildError::Compress)))
            <==> opts.profile_index >= list.unwrap()@.len(),
        r matches Ok(e) ==> info_values(e.profiles@) == info_values(list.unwrap()@),
{
    let events = trace_json(text_json(input).unwrap()).unwrap();
    law_event_order(events, events, 1000, opts.default_sample_delta_us);
    let v = trace_profiles(input, opts.default_sample_delta_us).unwrap();
    assert(infos(v).len() == v.len());
    assert(info_values(list.unwrap()@).len() == list.unwrap()@.len());
    if opts.profile_index < v.len() {
        assert(is_sound(v[opts.profile_index as int].1));
    }
}

} // verus!

//! How the pieces of a trace are put together to a CPU profile.
use vstd::prelude::*;
use crate::chrome_trace::{
    all_deltas, all_nodes, all_samples, by_time, chunk_placed, joined, linked, node_joined, nodes_joined,
    stream_profile,
};
use crate::cpuprofile::{node_index, CpuNodeView};
use crate::pool::entered;
use crate::tally::total;
use crate::trace_events::{ChunkView, RawNodeView, StreamView};

verus! {

/// The pieces of one time.
pub open spec fn at_time(s: Seq<ChunkView>, ts: i64) -> Seq<ChunkView> {
    s.filter(|c: ChunkView| c.ts == ts)
}

spec fn in_time_order(s: Seq<ChunkView>) -> bool {
    forall|i: int, j: int| 0 <= i < j < s.len() ==> (#[trigger] s[i]).ts <= (#[trigger] s[j]).ts
}

proof fn lemma_at_time_push(s: Seq<ChunkView>, c: ChunkView, ts: i64)
    ensures
        at_time(s.push(c), ts) == if c.ts == ts {
            at_time(s, ts).push(c)
        } else {
            at_time(s, ts)
        },
{
    reveal(Seq::filter);
    assert(s.push(c).drop_last() =~= s);
}

proof fn lemma_chunk_placed(s: Seq<ChunkView>, c: ChunkView, ts: i64)
    requires
        in_time_order(s),
    ensures
        in_time_order(chunk_placed(s, c)),
        chunk_placed(s, c).to_multiset() == s.to_multiset().insert(c),
        at_time(chunk_placed(s, c), ts) == at_time(s.push(c), ts),
        forall|i: int| 0 <= i < chunk_placed(s, c).len() ==> (#[trigger] chunk_placed(s, c)[i]).ts <= c.ts || (s.len() > 0
            && chunk_placed(s, c)[i].ts <= s.last().ts),
    decreases s.len(),
{
    broadcast use vstd::seq_lib::group_to_multiset_ensures;

    let r = chunk_placed(s, c);
    if s.len() == 0 || s.last().ts <= c.ts {
        assert forall|i: int, j: int| 0 <= i < j < r.len() implies (#[trigger] r[i]).ts <= (#[trigger] r[j]).ts by {
            if j == s.len() && i < s.len() - 1 {
                assert(s[i].ts <= s[s.len() - 1].ts);
            }
        }
    } else {
        let front = s.drop_last();
        let last = s.last();
        let q = chunk_placed(front, c);
        assert forall|i: int, j: int| 0 <= i < j < front.len() implies (#[trigger] front[i]).ts <= (#[trigger] front[j]).ts by {
            assert(s[i].ts <= s[j].ts);
        }
        lemma_chunk_placed(front, c, ts);
        if front.len() > 0 {
            assert(s[front.len() - 1].ts <= s[s.len() - 1].ts);
        }
        assert(r == q.push(last));
        assert forall|i: int, j: int| 0 <= i < j < r.len() implies (#[trigger] r[i]).ts <= (#[trigger] r[j]).ts by {
            if j < q.len() {
                assert(q[i].ts <= q[j].ts);
            } else {
                assert(r[i] == q[i]);
            }
        }
        assert(front.push(last) =~= s);
        assert(r.to_multiset() =~= s.to_multiset().insert(c));
        lemma_at_time_push(q, last, ts);
        lemma_at_time_push(front, last, ts);
        lemma_at_time_push(front, c, ts);
        lemma_at_time_push(s, c, ts);
    }
}

/// The pieces are taken in order of time, none is lost, and those of one time keep their
/// order.
pub proof fn law_pieces_in_order(s: Seq<ChunkView>, ts: i64)
    ensures
        forall|i: int, j: int| 0 <= i < j < by_time(s).len() ==> (#[trigger] by_time(s)[i]).ts <= (#[trigger] by_time(s)[j]).ts,
        by_time(s).to_multiset() == s.to_multiset(),
        at_time(by_time(s), ts) == at_time(s, ts),
    decreases s.len(),
{
    broadcast use vstd::seq_lib::group_to_multiset_ensures;

    if s.len() > 0 {
        let front = s.drop_last();
        law_pieces_in_order(front, ts);
        assert(in_time_order(by_time(front)));
        lemma_chunk_placed(by_time(front), s.last(), ts);
        assert(in_time_order(by_time(s)));
        assert(front.push(s.last()) =~= s);
        lemma_at_time_push(by_time(front), s.last(), ts);
        lemma_at_time_push(front, s.last(), ts);
    } else {
        assert(by_time(s) =~= s);
    }
}


/// Pieces follow each other: what two lists of pieces hold is what the first holds and then
/// what the second does.
pub proof fn law_pieces_joined(a: Seq<ChunkView>, b: Seq<ChunkView>)
    ensures
        all_nodes(a + b) == all_nodes(a) + all_nodes(b),
        all_samples(a + b) == all_samples(a) + all_samples(b),
        all_deltas(a + b) == all_deltas(a) + all_deltas(b),
        a.len() == 1 ==> all_nodes(a) == a[0].nodes && all_samples(a) == a[0].samples && all_deltas(a)
            == a[0].time_deltas,
    decreases b.len(),
{
    if a.len() == 1 {
        assert(a.drop_last() =~= Seq::empty());
        assert(all_nodes(a.drop_last()) =~= Seq::empty());
        assert(all_samples(a.drop_last()) =~= Seq::empty());
        assert(all_deltas(a.drop_last()) =~= Seq::empty());
        assert(all_nodes(a) =~= a[0].nodes);
        assert(all_samples(a) =~= a[0].samples);
        assert(all_deltas(a) =~= a[0].time_deltas);
    }
    if b.len() == 0 {
        assert(a + b =~= a);
        assert(all_nodes(a + b) =~= all_nodes(a) + all_nodes(b));
        assert(all_samples(a + b) =~= all_samples(a) + all_samples(b));
        assert(all_deltas(a + b) =~= all_deltas(a) + all_deltas(b));
    } else {
        law_pieces_joined(a, b.drop_last());
        assert((a + b).drop_last() =~= a + b.drop_last());
        assert(all_nodes(a + b) =~= all_nodes(a) + all_nodes(b));
        assert(all_samples(a + b) =~= all_samples(a) + all_samples(b));
        assert(all_deltas(a + b) =~= all_deltas(a) + all_deltas(b));
    }
}

/// Whether a node calls another: it lists it, or the other names it as its parent.
pub open spec fn calls(nodes: Seq<RawNodeView>, id: i64, kid: i64) -> bool {
    ||| exists|k: int| 0 <= k < nodes.len() && (#[trigger] nodes[k]).id == id && nodes[k].children.contains(kid)
    ||| exists|k: int| 0 <= k < nodes.len() && (#[trigger] nodes[k]).id == kid && nodes[k].parent == Some(id)
}

/// Whether a node is listed as the child of another.
pub open spec fn lists(nodes: Seq<RawNodeView>, id: i64, kid: i64) -> bool {
    exists|k: int| 0 <= k < nodes.len() && (#[trigger] nodes[k]).id == id && nodes[k].children.contains(kid)
}

/// Whether a node names another as its parent.
pub open spec fn names_parent(nodes: Seq<RawNodeView>, id: i64, kid: i64) -> bool {
    exists|k: int| 0 <= k < nodes.len() && (#[trigger] nodes[k]).id == kid && nodes[k].parent == Some(id)
}

/// Whether a node is among the given ones.
pub open spec fn is_given(nodes: Seq<RawNodeView>, id: i64) -> bool {
    exists|k: int| 0 <= k < nodes.len() && (#[trigger] nodes[k]).id == id
}

spec fn ids_apart(acc: Seq<CpuNodeView>) -> bool {
    forall|a: int, b: int| 0 <= a < b < acc.len() ==> (#[trigger] acc[a]).id != (#[trigger] acc[b]).id
}

spec fn has_id(acc: Seq<CpuNodeView>, id: i64) -> bool {
    exists|a: int| 0 <= a < acc.len() && (#[trigger] acc[a]).id == id
}

proof fn lemma_index(acc: Seq<CpuNodeView>, id: i64)
    ensures
        match node_index(acc, id) {
            Some(i) => 0 <= i < acc.len() && acc[i].id == id,
            None => !has_id(acc, id),
        },
    decreases acc.len(),
{
    if acc.len() > 0 {
        let front = acc.drop_last();
        lemma_index(front, id);
        if node_index(acc, id) is None && has_id(acc, id) {
            let a = choose|a: int| 0 <= a < acc.len() && (#[trigger] acc[a]).id == id;
            if a < front.len() {
                assert(front[a].id == id);
            }
        }
    }
}

proof fn lemma_entered_has(s: Seq<i64>, x: i64, y: i64)
    ensures
        entered(s, x).contains(y) <==> s.contains(y) || y == x,
{
    let r = entered(s, x);
    if s.contains(y) {
        let i = s.index_of(y);
        assert(s[i] == y);
        assert(r[i] == y);
    }
    if y == x && !s.contains(x) {
        assert(r[s.len() as int] == y);
    }
    if r.contains(y) && y != x {
        let i = r.index_of(y);
        assert(r[i] == y);
        assert(s[i] == y);
    }
}

proof fn lemma_joined(a: Seq<i64>, b: Seq<i64>, y: i64)
    ensures
        joined(a, b).contains(y) <==> a.contains(y) || b.contains(y),
    decreases b.len(),
{
    if b.len() > 0 {
        let front = b.drop_last();
        lemma_joined(a, front, y);
        lemma_entered_has(joined(a, front), b.last(), y);
        if front.contains(y) {
            assert(b[front.index_of(y)] == y);
        }
        if b.last() == y {
            assert(b[b.len() - 1] == y);
        }
        if b.contains(y) && y != b.last() {
            let i = b.index_of(y);
            assert(front[i] == y);
        }
    }
}

/// Whether nodes are put together: each id that is given stands once, with the frame that it
/// was first given with, and with the children that were listed for it.
spec fn put_together(nodes: Seq<RawNodeView>, acc: Seq<CpuNodeView>) -> bool {
    &&& ids_apart(acc)
    &&& forall|id: i64| #[trigger] has_id(acc, id) <==> is_given(nodes, id)
    &&& forall|a: int, kid: i64|
        0 <= a < acc.len() ==> (#[trigger] acc[a].children.contains(kid) <==> lists(nodes, acc[a].id, kid))
    &&& forall|a: int| 0 <= a < acc.len() ==> is_first_frame(nodes, #[trigger] acc[a])
}

/// Whether a node has the frame that its id was first given with.
pub open spec fn is_first_frame(nodes: Seq<RawNodeView>, n: CpuNodeView) -> bool {
    exists|k: int|
        {
            &&& 0 <= k < nodes.len()
            &&& (#[trigger] nodes[k]).id == n.id
            &&& nodes[k].call_frame == n.call_frame
            &&& forall|j: int| 0 <= j < k ==> (#[trigger] nodes[j]).id != n.id
        }
}

proof fn lemma_more_given(nodes: Seq<RawNodeView>, id: i64, kid: i64)
    requires
        nodes.len() > 0,
    ensures
        is_given(nodes, id) <==> is_given(nodes.drop_last(), id) || nodes.last().id == id,
        lists(nodes, id, kid) <==> lists(nodes.drop_last(), id, kid) || (nodes.last().id == id
            && nodes.last().children.contains(kid)),
        names_parent(nodes, id, kid) <==> names_parent(nodes.drop_last(), id, kid) || (nodes.last().id == kid
            && nodes.last().parent == Some(id)),
{
    let front = nodes.drop_last();
    assert(nodes[nodes.len() - 1] == nodes.last());
    if is_given(front, id) {
        let k = choose|k: int| 0 <= k < front.len() && (#[trigger] front[k]).id == id;
        assert(nodes[k].id == id);
    }
    if is_given(nodes, id) && nodes.last().id != id {
        let k = choose|k: int| 0 <= k < nodes.len() && (#[trigger] nodes[k]).id == id;
        assert(front[k].id == id);
    }
    if lists(front, id, kid) {
        let k = choose|k: int| 0 <= k < front.len() && (#[trigger] front[k]).id == id && front[k].children.contains(kid);
        assert(nodes[k].id == id && nodes[k].children.contains(kid));
    }
    if lists(nodes, id, kid) && !(nodes.last().id == id && nodes.last().children.contains(kid)) {
        let k = choose|k: int| 0 <= k < nodes.len() && (#[trigger] nodes[k]).id == id && nodes[k].children.contains(kid);
        assert(front[k].id == id && front[k].children.contains(kid));
    }
    if names_parent(front, id, kid) {
        let k = choose|k: int| 0 <= k < front.len() && (#[trigger] front[k]).id == kid && front[k].parent == Some(id);
        assert(nodes[k].id == kid && nodes[k].parent == Some(id));
    }
    if names_parent(nodes, id, kid) && !(nodes.last().id == kid && nodes.last().parent == Some(id)) {
        let k = choose|k: int| 0 <= k < nodes.len() && (#[trigger] nodes[k]).id == kid && nodes[k].parent == Some(id);
        assert(front[k].id == kid && front[k].parent == Some(id));
    }
}

proof fn lemma_put_together(nodes: Seq<RawNodeView>)
    ensures
        put_together(nodes, nodes_joined(Seq::empty(), nodes)),
    decreases nodes.len(),
{
    let acc = nodes_joined(Seq::empty(), nodes);
    if nodes.len() > 0 {
        let front = nodes.drop_last();
        let n = nodes.last();
        let before = nodes_joined(Seq::empty(), front);
        lemma_put_together(front);
        lemma_index(before, n.id);
        assert(acc == node_joined(before, n));
        match node_index(before, n.id) {
            None => {
                let m = before.len() as int;
                assert(acc.len() == m + 1);
                assert forall|a: int, b: int| 0 <= a < b < acc.len() implies (#[trigger] acc[a]).id != (#[trigger] acc[b]).id by {
                    assert(acc[a] == before[a]);
                    if b < m {
                        assert(acc[b] == before[b]);
                    } else if before[a].id == n.id {
                        assert(has_id(before, n.id));
                    }
                }
                assert forall|id: i64| #[trigger] has_id(acc, id) <==> is_given(nodes, id) by {
                    lemma_more_given(nodes, id, 0);
                    assert(has_id(before, id) <==> is_given(front, id));
                    if has_id(before, id) {
                        let a = choose|a: int| 0 <= a < before.len() && (#[trigger] before[a]).id == id;
                        assert(acc[a].id == id);
                    }
                    if id == n.id {
                        assert(acc[m].id == id);
                    }
                    if has_id(acc, id) && id != n.id {
                        let a = choose|a: int| 0 <= a < acc.len() && (#[trigger] acc[a]).id == id;
                        assert(before[a].id == id);
                    }
                }
                assert forall|a: int, kid: i64| 0 <= a < acc.len() implies (#[trigger] acc[a].children.contains(kid)
                    <==> lists(nodes, acc[a].id, kid)) by {
                    lemma_more_given(nodes, acc[a].id, kid);
                    if a < m {
                        assert(acc[a] == before[a]);
                        assert(before[a].children.contains(kid) <==> lists(front, before[a].id, kid));
                        if before[a].id == n.id {
                            assert(has_id(before, n.id));
                        }
                    } else {
                        assert(!has_id(before, n.id));
                        if lists(front, n.id, kid) {
                            let k = choose|k: int|
                                0 <= k < front.len() && (#[trigger] front[k]).id == n.id && front[k].children.contains(kid);
                            assert(is_given(front, n.id));
                        }
                    }
                }
                assert forall|a: int| 0 <= a < acc.len() implies is_first_frame(nodes, #[trigger] acc[a]) by {
                    if a < m {
                        assert(is_first_frame(front, before[a]));
                        lemma_first_kept(nodes, before[a]);
                    } else {
                        assert(!has_id(before, n.id));
                        let l = nodes.len() - 1;
                        assert(nodes[l].id == acc[a].id);
                        assert forall|j: int| 0 <= j < l implies (#[trigger] nodes[j]).id != n.id by {
                            assert(front[j] == nodes[j]);
                            if front[j].id == n.id {
                                assert(is_given(front, n.id));
                            }
                        }
                    }
                }
            },
            Some(i) => {
                assert forall|a: int, b: int| 0 <= a < b < acc.len() implies (#[trigger] acc[a]).id != (#[trigger] acc[b]).id by {
                    assert(acc[a].id == before[a].id && acc[b].id == before[b].id);
                    assert(before[a].id != before[b].id);
                }
                assert forall|id: i64| #[trigger] has_id(acc, id) <==> is_given(nodes, id) by {
                    lemma_more_given(nodes, id, 0);
                    assert(has_id(before, id) <==> is_given(front, id));
                    if has_id(before, id) {
                        let a = choose|a: int| 0 <= a < before.len() && (#[trigger] before[a]).id == id;
                        assert(acc[a].id == id);
                    }
                    if id == n.id {
                        assert(acc[i].id == id);
                    }
                    if has_id(acc, id) {
                        let a = choose|a: int| 0 <= a < acc.len() && (#[trigger] acc[a]).id == id;
                        assert(before[a].id == id);
                    }
                }
                assert forall|a: int, kid: i64| 0 <= a < acc.len() implies (#[trigger] acc[a].children.contains(kid)
                    <==> lists(nodes, acc[a].id, kid)) by {
                    lemma_more_given(nodes, acc[a].id, kid);
                    assert(before[a].children.contains(kid) <==> lists(front, before[a].id, kid));
                    if a == i {
                        lemma_joined(before[i].children, n.children, kid);
                    } else {
                        assert(acc[a] == before[a]);
                        if a < i {
                            assert(before[a].id != before[i].id);
                        } else {
                            assert(before[i].id != before[a].id);
                        }
                    }
                }
                assert forall|a: int| 0 <= a < acc.len() implies is_first_frame(nodes, #[trigger] acc[a]) by {
                    assert(is_first_frame(front, before[a]));
                    lemma_first_kept(nodes, before[a]);
                    assert(acc[a].id == before[a].id && acc[a].call_frame == before[a].call_frame);
                }
            },
        }
    } else {
        assert forall|id: i64| #[trigger] has_id(acc, id) <==> is_given(nodes, id) by {}
    }
}

proof fn lemma_first_kept(nodes: Seq<RawNodeView>, n: CpuNodeView)
    requires
        nodes.len() > 0,
        is_first_frame(nodes.drop_last(), n),
    ensures
        is_first_frame(nodes, n),
{
    let front = nodes.drop_last();
    let k = choose|k: int|
        {
            &&& 0 <= k < front.len()
            &&& (#[trigger] front[k]).id == n.id
            &&& front[k].call_frame == n.call_frame
            &&& forall|j: int| 0 <= j < k ==> (#[trigger] front[j]).id != n.id
        };
    assert(nodes[k] == front[k]);
    assert forall|j: int| 0 <= j < k implies (#[trigger] nodes[j]).id != n.id by {
        assert(front[j] == nodes[j]);
    }
}

spec fn linked_up(acc: Seq<CpuNodeView>, nodes: Seq<RawNodeView>, r: Seq<CpuNodeView>) -> bool {
    &&& r.len() == acc.len()
    &&& forall|a: int| 0 <= a < acc.len() ==> (#[trigger] r[a]).id == acc[a].id && r[a].call_frame == acc[a].call_frame
    &&& forall|a: int, kid: i64|
        0 <= a < acc.len() ==> (#[trigger] r[a].children.contains(kid) <==> acc[a].children.contains(kid) || names_parent(
            nodes,
            acc[a].id,
            kid,
        ))
}

proof fn lemma_linked_up(acc: Seq<CpuNodeView>, nodes: Seq<RawNodeView>)
    requires
        ids_apart(acc),
    ensures
        linked_up(acc, nodes, linked(acc, nodes)),
    decreases nodes.len(),
{
    let r = linked(acc, nodes);
    if nodes.len() > 0 {
        let front = nodes.drop_last();
        let n = nodes.last();
        let before = linked(acc, front);
        lemma_linked_up(acc, front);
        if let Some(p) = n.parent {
            lemma_index(before, p);
            assert forall|a: int| 0 <= a < acc.len() implies (#[trigger] r[a]).id == acc[a].id && r[a].call_frame
                == acc[a].call_frame by {
                assert(before[a].id == acc[a].id);
            }
            assert forall|a: int, kid: i64| 0 <= a < acc.len() implies (#[trigger] r[a].children.contains(kid) <==> acc[a].children.contains(
                kid,
            ) || names_parent(nodes, acc[a].id, kid)) by {
                lemma_more_given(nodes, acc[a].id, kid);
                assert(before[a].children.contains(kid) <==> acc[a].children.contains(kid) || names_parent(
                    front,
                    acc[a].id,
                    kid,
                ));
                assert(before[a].id == acc[a].id);
                match node_index(before, p) {
                    Some(i) => {
                        assert(before[i].id == acc[i].id);
                        if a == i {
                            lemma_entered_has(before[i].children, n.id, kid);
                        } else if a < i {
                            assert(acc[a].id != acc[i].id);
                        } else {
                            assert(acc[i].id != acc[a].id);
                        }
                    },
                    None => {
                        if acc[a].id == p {
                            assert(has_id(before, p));
                        }
                    },
                }
            }
        } else {
            assert forall|a: int, kid: i64| 0 <= a < acc.len() implies (#[trigger] r[a].children.contains(kid) <==> acc[a].children.contains(
                kid,
            ) || names_parent(nodes, acc[a].id, kid)) by {
                lemma_more_given(nodes, acc[a].id, kid);
                assert(before[a].children.contains(kid) <==> acc[a].children.contains(kid) || names_parent(
                    front,
                    acc[a].id,
                    kid,
                ));
            }
        }
    }
}

/// The call tree of a stream: each id that its pieces give stands once, with the frame that
/// it was first given with, and calls those that are listed for it or name it as their parent.
pub proof fn law_tree_assembled(s: StreamView, default: i64)
    ensures
        ({
            let nodes = all_nodes(by_time(s.chunks));
            let out = stream_profile(s, default).nodes;
            &&& forall|a: int, b: int| 0 <= a < b < out.len() ==> (#[trigger] out[a]).id != (#[trigger] out[b]).id
            &&& forall|k: int|
                0 <= k < nodes.len() ==> exists|a: int| 0 <= a < out.len() && (#[trigger] out[a]).id == (#[trigger] nodes[k]).id
            &&& forall|a: int| 0 <= a < out.len() ==> is_first_frame(nodes, #[trigger] out[a])
            &&& forall|a: int, kid: i64|
                0 <= a < out.len() ==> (#[trigger] out[a].children.contains(kid) <==> calls(nodes, out[a].id, kid))
        }),
{
    let nodes = all_nodes(by_time(s.chunks));
    let acc = nodes_joined(Seq::empty(), nodes);
    let out = stream_profile(s, default).nodes;
    lemma_put_together(nodes);
    lemma_linked_up(acc, nodes);
    assert(out == linked(acc, nodes));
    assert forall|a: int, b: int| 0 <= a < b < out.len() implies (#[trigger] out[a]).id != (#[trigger] out[b]).id by {
        assert(acc[a].id != acc[b].id);
    }
    assert forall|k: int| 0 <= k < nodes.len() implies exists|a: int|
        0 <= a < out.len() && (#[trigger] out[a]).id == (#[trigger] nodes[k]).id by {
        assert(is_given(nodes, nodes[k].id));
        assert(has_id(acc, nodes[k].id));
        let a = choose|a: int| 0 <= a < acc.len() && (#[trigger] acc[a]).id == nodes[k].id;
        assert(out[a].id == nodes[k].id);
    }
    assert forall|a: int| 0 <= a < out.len() implies is_first_frame(nodes, #[trigger] out[a]) by {
        assert(is_first_frame(nodes, acc[a]));
        assert(out[a].id == acc[a].id && out[a].call_frame == acc[a].call_frame);
    }
    assert forall|a: int, kid: i64| 0 <= a < out.len() implies (#[trigger] out[a].children.contains(kid) <==> calls(
        nodes,
        out[a].id,
        kid,
    )) by {
        assert(out[a].id == acc[a].id);
        assert(acc[a].children.contains(kid) <==> lists(nodes, acc[a].id, kid));
    }
}

/// The samples of a stream are those of its pieces in order of time, each with its time.
/// Times that are missing are filled in, with 1 where the default is less. Without an end the
/// profile ends when its times are over.
pub proof fn law_samples_assembled(s: StreamView, default: i64)
    ensures
        ({
            let chunks = by_time(s.chunks);
            let out = stream_profile(s, default);
            let times = all_deltas(chunks);
            &&& out.samples == all_samples(chunks)
            &&& out.time_deltas.len() == out.samples.len()
            &&& forall|i: int|
                0 <= i < out.samples.len() && i < times.len() ==> #[trigger] out.time_deltas[i] == times[i]
            &&& forall|i: int|
                times.len() <= i < out.samples.len() && default >= 1 ==> #[trigger] out.time_deltas[i] == default
            &&& forall|i: int|
                times.len() <= i < out.samples.len() && default < 1 ==> #[trigger] out.time_deltas[i] == 1
            &&& s.start_time matches Some(t) ==> out.start_time == t
            &&& s.start_time is None ==> out.start_time == 0
            &&& s.end_time matches Some(t) ==> out.end_time == t
            &&& s.end_time is None && crate::num::is_i64(out.start_time + total(out.time_deltas)) ==> out.end_time
                == out.start_time + total(out.time_deltas)
        }),
{
}

} // verus!

//! What the profile of a heap profile says of each node that allocated.
use vstd::prelude::*;
use crate::demangle::Demangler;
use crate::heapprofile::{
    allocating, allocations, byte_total, heap_profile, heap_tables, node_sample, sampled_nodes, sites_of,
    values_fit, visits, visits_of, HeapNodeView, HeapProfile, HeapSample, VisitView,
};
use crate::proto::{ProfileView, SampleView};
use crate::sited::{frame_shown, is_plain, lemma_node_shown, lemma_sited, lemma_start_sited};
use crate::tally::{count_of, sum};
use crate::v8::{lemma_sites_entered, start_sites, CallFrameView, Site};

verus! {

/// Whether nodes are those from one up to the head, each followed by its parent.
pub open spec fn is_lineage(head: HeapNodeView, nodes: Seq<HeapNodeView>) -> bool {
    &&& nodes.len() > 0
    &&& nodes.last() == head
    &&& forall|i: int| 0 <= i < nodes.len() - 1 ==> nodes[i + 1].children.contains(#[trigger] nodes[i])
}

/// Whether a node stands in a tree.
pub open spec fn is_in_tree(head: HeapNodeView, node: HeapNodeView) -> bool {
    exists|nodes: Seq<HeapNodeView>| #[trigger] is_lineage(head, nodes) && nodes[0] == node
}

/// Whether nodes with the same id have the same frame, and the frames' texts hold no
/// separator.
pub open spec fn ids_tell_frames(head: HeapNodeView) -> bool {
    &&& forall|a: HeapNodeView, b: HeapNodeView| #[trigger]
        is_in_tree(head, a) && #[trigger] is_in_tree(head, b) && a.id == b.id ==> a.call_frame == b.call_frame
    &&& forall|a: HeapNodeView| #[trigger] is_in_tree(head, a) ==> is_plain(a.call_frame)
}

/// How many allocation samples name a node.
pub open spec fn times_sampled(samples: Seq<HeapSample>, id: i64) -> int
    decreases samples.len(),
{
    if samples.len() == 0 {
        0
    } else if samples.last().node_id == id {
        times_sampled(samples.drop_last(), id) + 1
    } else {
        times_sampled(samples.drop_last(), id)
    }
}

/// Whether a sample is that of a node: its locations show the frames of the node, of its
/// parent and so on up to the head. It counts the node's allocation samples, or 1 where there
/// are none at all, and the node's bytes.
pub open spec fn sample_of_node<D: Demangler>(
    p: ProfileView,
    s: SampleView,
    nodes: Seq<HeapNodeView>,
    samples: Seq<HeapSample>,
    d: D,
) -> bool {
    &&& s.location_id.len() == nodes.len()
    &&& forall|i: int| 0 <= i < nodes.len() ==> frame_shown(p, #[trigger] s.location_id[i], nodes[i].call_frame, d)
    &&& s.value.len() == 2
    &&& samples.len() > 0 ==> s.value[0] == times_sampled(samples, nodes[0].id)
    &&& samples.len() == 0 ==> s.value[0] == 1
    &&& s.value[1] == nodes[0].self_size
}

/// The bytes that the nodes of a tree allocated.
pub open spec fn bytes_in(node: HeapNodeView) -> int
    decreases node, 1nat,
{
    bytes_in_all(node.children) + if node.self_size > 0 {
        node.self_size as int
    } else {
        0
    }
}

/// The bytes that the nodes of several trees allocated.
pub open spec fn bytes_in_all(nodes: Seq<HeapNodeView>) -> int
    decreases nodes, 0nat,
{
    if nodes.len() == 0 {
        0
    } else {
        bytes_in_all(nodes.drop_last()) + bytes_in(nodes.last())
    }
}

spec fn ids_of(nodes: Seq<HeapNodeView>) -> Seq<i64> {
    Seq::new(nodes.len(), |i: int| nodes[i].id)
}

spec fn visit_of(nodes: Seq<HeapNodeView>, above: Seq<i64>) -> VisitView {
    VisitView {
        site: Site { id: nodes[0].id, frame: nodes[0].call_frame },
        self_size: nodes[0].self_size,
        path: ids_of(nodes) + above,
    }
}

proof fn lemma_child_visits(nodes: Seq<HeapNodeView>, above: Seq<i64>, c: HeapNodeView, v: VisitView)
    requires
        nodes.contains(c),
        visits(c, above).contains(v),
    ensures
        visits_of(nodes, above).contains(v),
    decreases nodes.len(),
{
    let front = nodes.drop_last();
    let a = visits_of(front, above);
    let b = visits(nodes.last(), above);
    let all = visits_of(nodes, above);
    let k = nodes.index_of(c);
    if nodes.last() == c {
        let j = b.index_of(v);
        assert(b[j] == v);
        assert(all[a.len() + j] == v);
    } else {
        assert(nodes[k] == c);
        assert(front[k] == c);
        lemma_child_visits(front, above, c, v);
        let j = a.index_of(v);
        assert(a[j] == v);
        assert(all[j] == v);
    }
}

/// What is met below a node of a lineage is met on the way through the whole tree.
proof fn lemma_below(head: HeapNodeView, nodes: Seq<HeapNodeView>, k: int, v: VisitView)
    requires
        is_lineage(head, nodes),
        0 <= k < nodes.len(),
        visits(nodes[k], ids_of(nodes.skip(k + 1))).contains(v),
    ensures
        visits(head, Seq::empty()).contains(v),
    decreases nodes.len() - k,
{
    let above = ids_of(nodes.skip(k + 1));
    if k == nodes.len() - 1 {
        assert(above =~= Seq::<i64>::empty());
    } else {
        let up = nodes[k + 1];
        let higher = ids_of(nodes.skip(k + 2));
        let path = seq![up.id] + higher;
        assert(above =~= path);
        assert(up.children.contains(nodes[k]));
        lemma_child_visits(up.children, path, nodes[k], v);
        let below = visits_of(up.children, path);
        let j = below.index_of(v);
        assert(below[j] == v);
        assert(visits(up, higher)[j + 1] == v);
        lemma_below(head, nodes, k + 1, v);
    }
}

/// Each node is met, with its path.
proof fn lemma_met(head: HeapNodeView, nodes: Seq<HeapNodeView>, k: int)
    requires
        is_lineage(head, nodes),
        0 <= k < nodes.len(),
    ensures
        visits(head, Seq::empty()).contains(visit_of(nodes.skip(k), Seq::empty())),
{
    let above = ids_of(nodes.skip(k + 1));
    let v = visit_of(nodes.skip(k), Seq::empty());
    assert(v.path =~= seq![nodes[k].id] + above);
    assert(visits(nodes[k], above)[0] == v);
    lemma_below(head, nodes, k, v);
}

proof fn lemma_visit_is_lineage(node: HeapNodeView, above: Seq<i64>, v: VisitView)
    requires
        visits(node, above).contains(v),
    ensures
        exists|nodes: Seq<HeapNodeView>| #[trigger] is_lineage(node, nodes) && v == visit_of(nodes, above),
    decreases node, 1nat,
{
    let path = seq![node.id] + above;
    let below = visits_of(node.children, path);
    let all = visits(node, above);
    let j = all.index_of(v);
    assert(all[j] == v);
    if j == 0 {
        let nodes = seq![node];
        assert(is_lineage(node, nodes));
        assert(visit_of(nodes, above).path =~= path);
    } else {
        assert(below[j - 1] == v);
        lemma_visit_below(node.children, path, v);
        let c = choose|c: int|
            #![trigger node.children[c]]
            0 <= c < node.children.len() && exists|nodes: Seq<HeapNodeView>| #[trigger]
                is_lineage(node.children[c], nodes) && v == visit_of(nodes, path);
        let nodes = choose|nodes: Seq<HeapNodeView>| #[trigger]
            is_lineage(node.children[c], nodes) && v == visit_of(nodes, path);
        let longer = nodes.push(node);
        assert forall|i: int| 0 <= i < longer.len() - 1 implies longer[i + 1].children.contains(#[trigger] longer[i]) by {
            if i < nodes.len() - 1 {
                assert(longer[i] == nodes[i]);
                assert(longer[i + 1] == nodes[i + 1]);
            } else {
                assert(node.children[c] == longer[i]);
            }
        }
        assert(is_lineage(node, longer));
        assert(visit_of(longer, above).path =~= visit_of(nodes, path).path);
    }
}

proof fn lemma_visit_below(children: Seq<HeapNodeView>, path: Seq<i64>, v: VisitView)
    requires
        visits_of(children, path).contains(v),
    ensures
        exists|c: int|
            #![trigger children[c]]
            0 <= c < children.len() && exists|nodes: Seq<HeapNodeView>| #[trigger]
                is_lineage(children[c], nodes) && v == visit_of(nodes, path),
    decreases children, 0nat,
{
    let front = children.drop_last();
    let a = visits_of(front, path);
    let b = visits(children.last(), path);
    let all = visits_of(children, path);
    let j = all.index_of(v);
    assert(all[j] == v);
    if j < a.len() {
        assert(a[j] == v);
        lemma_visit_below(front, path, v);
        let c = choose|c: int|
            #![trigger front[c]]
            0 <= c < front.len() && exists|nodes: Seq<HeapNodeView>| #[trigger]
                is_lineage(front[c], nodes) && v == visit_of(nodes, path);
        assert(children[c] == front[c]);
    } else {
        assert(b[j - a.len()] == v);
        lemma_visit_is_lineage(children.last(), path, v);
        assert(children[children.len() - 1] == children.last());
    }
}

proof fn lemma_allocating(vs: Seq<VisitView>, v: VisitView)
    ensures
        allocating(vs).contains(v) <==> vs.contains(v) && v.self_size > 0,
    decreases vs.len(),
{
    if vs.len() > 0 {
        let front = vs.drop_last();
        let a = allocating(front);
        let all = allocating(vs);
        lemma_allocating(front, v);
        if all.contains(v) {
            let j = all.index_of(v);
            assert(all[j] == v);
            if j < a.len() {
                assert(a[j] == v);
                assert(a.contains(v));
                assert(vs[front.index_of(v)] == v);
            } else {
                assert(vs[vs.len() - 1] == v);
            }
        }
        if vs.contains(v) && v.self_size > 0 {
            let j = vs.index_of(v);
            assert(vs[j] == v);
            if j < front.len() {
                assert(front[j] == v);
                assert(front.contains(v));
                assert(all[a.index_of(v)] == v);
            } else {
                assert(all[all.len() - 1] == v);
            }
        }
    }
}

proof fn lemma_times_sampled(samples: Seq<HeapSample>, id: i64)
    ensures
        count_of(sampled_nodes(samples), id) == times_sampled(samples, id),
    decreases samples.len(),
{
    if samples.len() > 0 {
        lemma_times_sampled(samples.drop_last(), id);
        assert(sampled_nodes(samples).drop_last() =~= sampled_nodes(samples.drop_last()));
    }
}

spec fn frames_of(sites: Seq<Site>) -> spec_fn(i64) -> CallFrameView {
    |id: i64| sites[choose|i: int| 0 <= i < sites.len() && (#[trigger] sites[i]).id == id].frame
}

proof fn lemma_first_in_tree(head: HeapNodeView, nodes: Seq<HeapNodeView>, k: int)
    requires
        is_lineage(head, nodes),
        0 <= k < nodes.len(),
    ensures
        is_in_tree(head, nodes[k]),
{
    let rest = nodes.skip(k);
    assert forall|i: int| 0 <= i < rest.len() - 1 implies rest[i + 1].children.contains(#[trigger] rest[i]) by {
        assert(nodes[k + i + 1].children.contains(nodes[k + i]));
    }
    assert(is_lineage(head, rest));
    assert(rest[0] == nodes[k]);
}

/// The sample of a visit that a lineage gives.
proof fn lemma_sample<D: Demangler>(p: HeapProfile, mapping: Seq<char>, d: D, nodes: Seq<HeapNodeView>)
    requires
        is_lineage(p.head.tree(), nodes),
        nodes[0].self_size > 0,
        ids_tell_frames(p.head.tree()),
        values_fit(p),
        heap_profile(p, mapping, d).string_table.len() <= i64::MAX,
        heap_profile(p, mapping, d).location.len() <= u64::MAX,
        heap_tables(p, mapping, d).nodes.len() <= u64::MAX,
    ensures
        sample_of_node(
            heap_profile(p, mapping, d),
            node_sample(heap_tables(p, mapping, d).nodes, p.samples@, visit_of(nodes, Seq::empty())),
            nodes,
            p.samples@,
            d,
        ),
        allocations(p).contains(visit_of(nodes, Seq::empty())),
{
    let head = p.head.tree();
    let all = visits(head, Seq::empty());
    let sites = sites_of(all);
    let frames = frames_of(sites);
    let start = start_sites("alloc_objects"@, "count"@, "alloc_space"@, "bytes"@, mapping);
    let s = heap_tables(p, mapping, d);
    let out = heap_profile(p, mapping, d);
    assert forall|i: int| 0 <= i < sites.len() implies (#[trigger] sites[i]).frame == frames(sites[i].id) && is_plain(
        sites[i].frame,
    ) by {
        let j = choose|j: int| 0 <= j < sites.len() && (#[trigger] sites[j]).id == sites[i].id;
        assert(sites[i].id == sites[i].id);
        assert(all.contains(all[i]) && all.contains(all[j]));
        lemma_visit_is_lineage(head, Seq::empty(), all[i]);
        lemma_visit_is_lineage(head, Seq::empty(), all[j]);
        let a = choose|a: Seq<HeapNodeView>| #[trigger] is_lineage(head, a) && all[i] == visit_of(a, Seq::empty());
        let b = choose|b: Seq<HeapNodeView>| #[trigger] is_lineage(head, b) && all[j] == visit_of(b, Seq::empty());
        lemma_first_in_tree(head, a, 0);
        lemma_first_in_tree(head, b, 0);
    }
    lemma_start_sited("alloc_objects"@, "count"@, "alloc_space"@, "bytes"@, mapping, frames, d);
    lemma_sited(start, sites, frames, d);
    crate::tables::lemma_start_tables("alloc_objects"@, "count"@, "alloc_space"@, "bytes"@, mapping);
    lemma_sites_entered(start, sites, d);
    let v = visit_of(nodes, Seq::empty());
    let got = node_sample(s.nodes, p.samples@, v);
    assert forall|i: int| 0 <= i < nodes.len() implies frame_shown(
        out,
        #[trigger] got.location_id[i],
        nodes[i].call_frame,
        d,
    ) by {
        lemma_met(head, nodes, i);
        let w = visit_of(nodes.skip(i), Seq::empty());
        let j = all.index_of(w);
        assert(all[j] == w);
        assert(sites[j] == w.site);
        assert(sites[j].frame == frames(sites[j].id));
        assert(s.nodes.contains(sites[j].id));
        lemma_node_shown(s, out, nodes[i].id, frames, d);
        assert(v.path[i] == nodes[i].id);
    }
    assert(nodes.skip(0) =~= nodes);
    lemma_met(head, nodes, 0);
    lemma_allocating(all, v);
    lemma_times_sampled(p.samples@, nodes[0].id);
    crate::heapprofile::lemma_objects_fit(p, nodes[0].id);
}

/// Each node that allocated has a sample, which starts with the node itself and goes up to
/// the head.
pub proof fn law_node_kept<D: Demangler>(p: HeapProfile, mapping: Seq<char>, d: D, nodes: Seq<HeapNodeView>)
    requires
        is_lineage(p.head.tree(), nodes),
        nodes[0].self_size > 0,
        ids_tell_frames(p.head.tree()),
        values_fit(p),
        heap_profile(p, mapping, d).string_table.len() <= i64::MAX,
        heap_profile(p, mapping, d).location.len() <= u64::MAX,
    ensures
        exists|j: int|
            0 <= j < heap_profile(p, mapping, d).sample.len() && sample_of_node(
                heap_profile(p, mapping, d),
                #[trigger] heap_profile(p, mapping, d).sample[j],
                nodes,
                p.samples@,
                d,
            ),
{
    lemma_locations(p, mapping, d);
    lemma_sample(p, mapping, d, nodes);
    let v = visit_of(nodes, Seq::empty());
    let j = allocations(p).index_of(v);
    assert(allocations(p)[j] == v);
    assert(heap_profile(p, mapping, d).sample[j] == node_sample(heap_tables(p, mapping, d).nodes, p.samples@, v));
}

proof fn lemma_locations<D: Demangler>(p: HeapProfile, mapping: Seq<char>, d: D)
    ensures
        heap_tables(p, mapping, d).nodes.len() == heap_profile(p, mapping, d).location.len(),
{
    crate::sited::lemma_one_location_each(
        start_sites("alloc_objects"@, "count"@, "alloc_space"@, "bytes"@, mapping),
        sites_of(visits(p.head.tree(), Seq::empty())),
        d,
    );
}

/// Each sample is that of a node that allocated.
pub proof fn law_samples_are_nodes<D: Demangler>(p: HeapProfile, mapping: Seq<char>, d: D, j: int)
    requires
        0 <= j < heap_profile(p, mapping, d).sample.len(),
        ids_tell_frames(p.head.tree()),
        values_fit(p),
        heap_profile(p, mapping, d).string_table.len() <= i64::MAX,
        heap_profile(p, mapping, d).location.len() <= u64::MAX,
    ensures
        exists|nodes: Seq<HeapNodeView>|
            {
                &&& #[trigger] is_lineage(p.head.tree(), nodes)
                &&& nodes[0].self_size > 0
                &&& sample_of_node(
                    heap_profile(p, mapping, d),
                    heap_profile(p, mapping, d).sample[j],
                    nodes,
                    p.samples@,
                    d,
                )
            },
{
    let head = p.head.tree();
    let v = allocations(p)[j];
    assert(allocations(p).contains(v));
    lemma_allocating(visits(head, Seq::empty()), v);
    lemma_visit_is_lineage(head, Seq::empty(), v);
    let nodes = choose|nodes: Seq<HeapNodeView>| #[trigger] is_lineage(head, nodes) && v == visit_of(nodes, Seq::empty());
    lemma_locations(p, mapping, d);
    lemma_sample(p, mapping, d, nodes);
}

proof fn lemma_bytes_apart(a: Seq<VisitView>, b: Seq<VisitView>)
    ensures
        byte_total(allocating(a + b)) == byte_total(allocating(a)) + byte_total(allocating(b)),
    decreases b.len(),
{
    if b.len() == 0 {
        assert(a + b =~= a);
    } else {
        assert((a + b).drop_last() =~= a + b.drop_last());
        lemma_bytes_apart(a, b.drop_last());
        lemma_bytes_one_more(a + b);
        lemma_bytes_one_more(b);
    }
}

proof fn lemma_bytes_one_more(vs: Seq<VisitView>)
    requires
        vs.len() > 0,
    ensures
        byte_total(allocating(vs)) == byte_total(allocating(vs.drop_last())) + if vs.last().self_size > 0 {
            vs.last().self_size as int
        } else {
            0
        },
{
    let a = allocating(vs.drop_last());
    if vs.last().self_size > 0 {
        let b = a.push(vs.last());
        let s = Seq::new(b.len(), |i: int| b[i].self_size as int);
        assert(s.drop_last() =~= Seq::new(a.len(), |i: int| a[i].self_size as int));
    }
}

proof fn lemma_bytes(node: HeapNodeView, above: Seq<i64>)
    ensures
        byte_total(allocating(visits(node, above))) == bytes_in(node),
    decreases node, 1nat,
{
    let path = seq![node.id] + above;
    let first = visits(node, above)[0];
    let one = seq![first];
    lemma_bytes_of(node.children, path);
    assert(visits(node, above) =~= one + visits_of(node.children, path));
    lemma_bytes_apart(one, visits_of(node.children, path));
    lemma_bytes_one_more(one);
    assert(one.drop_last() =~= Seq::empty());
}

proof fn lemma_bytes_of(nodes: Seq<HeapNodeView>, above: Seq<i64>)
    ensures
        byte_total(allocating(visits_of(nodes, above))) == bytes_in_all(nodes),
    decreases nodes, 0nat,
{
    if nodes.len() > 0 {
        lemma_bytes_of(nodes.drop_last(), above);
        lemma_bytes(nodes.last(), above);
        lemma_bytes_apart(visits_of(nodes.drop_last(), above), visits(nodes.last(), above));
    }
}

/// The samples together hold the bytes of the whole tree.
pub proof fn law_tree_bytes_kept<D: Demangler>(p: HeapProfile, mapping: Seq<char>, d: D)
    ensures
        sum(
            Seq::new(
                heap_profile(p, mapping, d).sample.len(),
                |j: int| heap_profile(p, mapping, d).sample[j].value[1] as int,
            ),
        ) == bytes_in(p.head.tree()),
{
    let out = heap_profile(p, mapping, d).sample;
    let vs = allocations(p);
    lemma_bytes(p.head.tree(), Seq::empty());
    assert(Seq::new(out.len(), |j: int| out[j].value[1] as int) =~= Seq::new(
        vs.len(),
        |i: int| vs[i].self_size as int,
    ));
}

} // verus!

//! What the profile of a CPU profile says of each node that was hit.
use vstd::prelude::*;
use crate::cpuprofile::{
    acyclic, chain, cpu_profile, cpu_tables, deltas, leaf_stack, leaves_entered, node_index, parent_id,
    values_fit, CpuNodeView, CpuProfileView,
};
use crate::demangle::Demangler;
use crate::pool::law_place_kept;
use crate::proto::{ProfileView, SampleView};
use crate::sited::{
    frame_shown, is_plain, lemma_node_shown, lemma_one_location_each, lemma_sited, lemma_sites_grow,
    lemma_start_sited, sited,
};
use crate::tally::{count_of, first_seen, lemma_count_nonnegative, sum_of};
use crate::v8::{lemma_sites_entered, start_sites, CallFrameView, Site, SiteTablesView};

verus! {

/// Whether nodes have an id each, and their texts hold no separator.
pub open spec fn nodes_apart(nodes: Seq<CpuNodeView>) -> bool {
    &&& forall|a: int, b: int|
        0 <= a < nodes.len() && 0 <= b < nodes.len() && (#[trigger] nodes[a]).id == (#[trigger] nodes[b]).id ==> a == b
    &&& forall|a: int| 0 <= a < nodes.len() ==> is_plain((#[trigger] nodes[a]).call_frame)
}

/// Whether a way leads from a leaf up to a root: each node is followed by one that calls it,
/// and nobody calls the last one. An unknown leaf has no way.
pub open spec fn is_way_up(nodes: Seq<CpuNodeView>, leaf: i64, way: Seq<int>) -> bool {
    &&& forall|i: int| 0 <= i < way.len() ==> 0 <= #[trigger] way[i] < nodes.len()
    &&& way.len() == 0 ==> forall|a: int| 0 <= a < nodes.len() ==> (#[trigger] nodes[a]).id != leaf
    &&& way.len() > 0 ==> nodes[way[0]].id == leaf
    &&& forall|i: int|
        0 <= i < way.len() - 1 ==> nodes[way[i + 1]].children.contains(nodes[#[trigger] way[i]].id)
    &&& way.len() > 0 ==> forall|a: int|
        0 <= a < nodes.len() ==> !(#[trigger] nodes[a]).children.contains(nodes[way.last()].id)
}

/// How often a leaf was hit.
pub open spec fn times_hit(samples: Seq<i64>, leaf: i64) -> int
    decreases samples.len(),
{
    if samples.len() == 0 {
        0
    } else if samples.last() == leaf {
        times_hit(samples.drop_last(), leaf) + 1
    } else {
        times_hit(samples.drop_last(), leaf)
    }
}

/// The microseconds before the first `n` samples that hit a leaf, where a missing time is 0.
pub open spec fn micros_hit(p: CpuProfileView, n: nat, leaf: i64) -> int
    decreases n,
{
    if n == 0 {
        0
    } else {
        let i = n - 1;
        micros_hit(p, i as nat, leaf) + if p.samples[i] == leaf && i < p.time_deltas.len() {
            p.time_deltas[i] as int
        } else {
            0
        }
    }
}

/// Whether a sample is that of a leaf: its locations show the frames on the way from the leaf
/// up to the root, and it counts the hits and their nanoseconds.
pub open spec fn sample_of_leaf<D: Demangler>(
    out: ProfileView,
    s: SampleView,
    p: CpuProfileView,
    leaf: i64,
    way: Seq<int>,
    d: D,
) -> bool {
    &&& is_way_up(p.nodes, leaf, way)
    &&& s.location_id.len() == way.len()
    &&& forall|i: int|
        0 <= i < way.len() ==> frame_shown(out, #[trigger] s.location_id[i], p.nodes[way[i]].call_frame, d)
    &&& s.value.len() == 2
    &&& s.value[0] == times_hit(p.samples, leaf)
    &&& s.value[1] == 1000 * micros_hit(p, p.samples.len(), leaf)
}

/// Whether a sample is that of a leaf, on some way up.
pub open spec fn leaf_kept<D: Demangler>(out: ProfileView, s: SampleView, p: CpuProfileView, leaf: i64, d: D) -> bool {
    exists|way: Seq<int>| sample_of_leaf(out, s, p, leaf, way, d)
}

proof fn lemma_index(nodes: Seq<CpuNodeView>, id: i64)
    ensures
        match node_index(nodes, id) {
            Some(i) => 0 <= i < nodes.len() && nodes[i].id == id,
            None => forall|a: int| 0 <= a < nodes.len() ==> (#[trigger] nodes[a]).id != id,
        },
    decreases nodes.len(),
{
    if nodes.len() > 0 {
        let front = nodes.drop_last();
        lemma_index(front, id);
        assert forall|a: int| 0 <= a < nodes.len() && node_index(nodes, id) is None implies (#[trigger] nodes[a]).id
            != id by {
            if a < front.len() {
                assert(front[a] == nodes[a]);
            }
        }
    }
}

proof fn lemma_parent(nodes: Seq<CpuNodeView>, id: i64)
    ensures
        match parent_id(nodes, id) {
            Some(up) => exists|a: int|
                0 <= a < nodes.len() && (#[trigger] nodes[a]).id == up && nodes[a].children.contains(id),
            None => forall|a: int| 0 <= a < nodes.len() ==> !(#[trigger] nodes[a]).children.contains(id),
        },
    decreases nodes.len(),
{
    if nodes.len() > 0 {
        let front = nodes.drop_last();
        lemma_parent(front, id);
        assert(nodes[nodes.len() - 1] == nodes.last());
        match parent_id(nodes, id) {
            Some(up) => {
                if !nodes.last().children.contains(id) {
                    let a = choose|a: int|
                        0 <= a < front.len() && (#[trigger] front[a]).id == up && front[a].children.contains(id);
                    assert(nodes[a] == front[a]);
                }
            },
            None => {
                assert forall|a: int| 0 <= a < nodes.len() implies !(#[trigger] nodes[a]).children.contains(id) by {
                    if a < front.len() {
                        assert(front[a] == nodes[a]);
                    }
                }
            },
        }
    }
}

spec fn sites_on(nodes: Seq<CpuNodeView>, way: Seq<int>) -> Seq<Site> {
    Seq::new(way.len(), |i: int| Site { id: nodes[way[i]].id, frame: nodes[way[i]].call_frame })
}

proof fn lemma_chain(nodes: Seq<CpuNodeView>, id: i64, limit: nat)
    requires
        nodes_apart(nodes),
        chain(nodes, id, limit) is Some,
    ensures
        exists|way: Seq<int>| #[trigger]
            is_way_up(nodes, id, way) && chain(nodes, id, limit) == Some(sites_on(nodes, way)),
    decreases limit,
{
    lemma_index(nodes, id);
    lemma_parent(nodes, id);
    match node_index(nodes, id) {
        None => {
            let way = Seq::<int>::empty();
            assert(is_way_up(nodes, id, way));
            assert(sites_on(nodes, way) =~= Seq::empty());
        },
        Some(i) => {
            let here = Site { id: nodes[i].id, frame: nodes[i].call_frame };
            match parent_id(nodes, id) {
                None => {
                    let way = seq![i];
                    assert(is_way_up(nodes, id, way));
                    assert(sites_on(nodes, way) =~= seq![here]);
                },
                Some(up) => {
                    let l = (limit - 1) as nat;
                    lemma_chain(nodes, up, l);
                    let rest = choose|rest: Seq<int>| #[trigger]
                        is_way_up(nodes, up, rest) && chain(nodes, up, l) == Some(sites_on(nodes, rest));
                    let a = choose|a: int|
                        0 <= a < nodes.len() && (#[trigger] nodes[a]).id == up && nodes[a].children.contains(id);
                    assert(rest.len() > 0);
                    assert(nodes[rest[0]].id == nodes[a].id);
                    assert(rest[0] == a);
                    let way = seq![i] + rest;
                    assert(way.last() == rest.last());
                    assert forall|k: int| 0 <= k < way.len() implies 0 <= #[trigger] way[k] < nodes.len() by {
                        if k > 0 {
                            assert(way[k] == rest[k - 1]);
                        }
                    }
                    assert forall|k: int| 0 <= k < way.len() - 1 implies nodes[way[k + 1]].children.contains(
                        nodes[#[trigger] way[k]].id,
                    ) by {
                        if k > 0 {
                            assert(way[k] == rest[k - 1]);
                            assert(way[k + 1] == rest[k - 1 + 1]);
                        } else {
                            assert(way[1] == rest[0]);
                        }
                    }
                    assert(is_way_up(nodes, id, way));
                    assert(sites_on(nodes, way) =~= seq![here] + sites_on(nodes, rest));
                },
            }
        },
    }
}

spec fn frames_by_id(nodes: Seq<CpuNodeView>) -> spec_fn(i64) -> CallFrameView {
    |id: i64| nodes[node_index(nodes, id).unwrap()].call_frame
}

/// The sites of a leaf are consistent, and come from a way.
proof fn lemma_leaf(nodes: Seq<CpuNodeView>, leaf: i64) -> (way: Seq<int>)
    requires
        nodes_apart(nodes),
        leaf_stack(nodes, leaf) is Some,
    ensures
        is_way_up(nodes, leaf, way),
        leaf_stack(nodes, leaf) == Some(sites_on(nodes, way)),
        forall|i: int|
            0 <= i < way.len() ==> (#[trigger] sites_on(nodes, way)[i]).frame == frames_by_id(nodes)(
                sites_on(nodes, way)[i].id,
            ) && is_plain(sites_on(nodes, way)[i].frame),
{
    lemma_chain(nodes, leaf, nodes.len());
    let way = choose|way: Seq<int>| #[trigger]
        is_way_up(nodes, leaf, way) && chain(nodes, leaf, nodes.len()) == Some(sites_on(nodes, way));
    let sites = sites_on(nodes, way);
    assert forall|i: int| 0 <= i < way.len() implies (#[trigger] sites[i]).frame == frames_by_id(nodes)(sites[i].id)
        && is_plain(sites[i].frame) by {
        lemma_index(nodes, sites[i].id);
        let k = node_index(nodes, sites[i].id).unwrap();
        assert(0 <= way[i] < nodes.len());
        assert(nodes[k].id == nodes[way[i]].id);
    }
    way
}

spec fn all_in(s: SiteTablesView, sites: Seq<Site>) -> bool {
    forall|i: int| 0 <= i < sites.len() ==> s.nodes.contains((#[trigger] sites[i]).id)
}

proof fn lemma_leaves<D: Demangler>(s: SiteTablesView, nodes: Seq<CpuNodeView>, leaves: Seq<i64>, d: D)
    requires
        nodes_apart(nodes),
        forall|i: int| 0 <= i < leaves.len() ==> leaf_stack(nodes, #[trigger] leaves[i]) is Some,
        sited(s, frames_by_id(nodes), d),
        crate::v8::sites_ok(s),
        leaves_entered(s, nodes, leaves, d).tables.strings.len() <= i64::MAX,
        leaves_entered(s, nodes, leaves, d).nodes.len() <= u64::MAX,
    ensures
        sited(leaves_entered(s, nodes, leaves, d), frames_by_id(nodes), d),
        crate::v8::sites_ok(leaves_entered(s, nodes, leaves, d)),
        forall|i: int|
            0 <= i < leaves.len() ==> all_in(
                leaves_entered(s, nodes, leaves, d),
                leaf_stack(nodes, #[trigger] leaves[i]).unwrap(),
            ),
    decreases leaves.len(),
{
    if leaves.len() > 0 {
        let front = leaves.drop_last();
        let r = leaves_entered(s, nodes, front, d);
        let q = leaves_entered(s, nodes, leaves, d);
        assert(leaves[leaves.len() - 1] == leaves.last());
        let sites = leaf_stack(nodes, leaves.last()).unwrap();
        lemma_sites_grow(r, sites, d);
        assert forall|i: int| 0 <= i < front.len() implies leaf_stack(nodes, #[trigger] front[i]) is Some by {
            assert(leaves[i] == front[i]);
        }
        lemma_leaves(s, nodes, front, d);
        let way = lemma_leaf(nodes, leaves.last());
        lemma_sited(r, sites, frames_by_id(nodes), d);
        lemma_sites_entered(r, sites, d);
        assert forall|i: int| 0 <= i < leaves.len() implies all_in(q, leaf_stack(nodes, #[trigger] leaves[i]).unwrap()) by {
            if i < front.len() {
                let old_sites = leaf_stack(nodes, front[i]).unwrap();
                assert(all_in(r, old_sites));
                assert forall|k: int| 0 <= k < old_sites.len() implies q.nodes.contains((#[trigger] old_sites[k]).id) by {
                    law_place_kept(r.nodes, q.nodes, old_sites[k].id);
                }
            }
        }
    }
}

proof fn lemma_hits(samples: Seq<i64>, leaf: i64)
    ensures
        count_of(samples, leaf) == times_hit(samples, leaf),
    decreases samples.len(),
{
    if samples.len() > 0 {
        lemma_hits(samples.drop_last(), leaf);
    }
}

proof fn lemma_micros(p: CpuProfileView, n: nat, leaf: i64)
    requires
        n <= p.samples.len(),
    ensures
        sum_of(p.samples.take(n as int), deltas(p).take(n as int), leaf) == micros_hit(p, n, leaf),
    decreases n,
{
    if n > 0 {
        let m = (n - 1) as nat;
        lemma_micros(p, m, leaf);
        assert(p.samples.take(n as int).drop_last() =~= p.samples.take(m as int));
        assert(deltas(p).take(n as int).drop_last() =~= deltas(p).take(m as int));
    }
}

proof fn lemma_cpu_locations<D: Demangler>(s: SiteTablesView, nodes: Seq<CpuNodeView>, leaves: Seq<i64>, d: D)
    ensures
        leaves_entered(s, nodes, leaves, d).nodes.len() - s.nodes.len() == leaves_entered(
            s,
            nodes,
            leaves,
            d,
        ).tables.locations.len() - s.tables.locations.len(),
    decreases leaves.len(),
{
    if leaves.len() > 0 {
        lemma_cpu_locations(s, nodes, leaves.drop_last(), d);
        lemma_one_location_each(
            leaves_entered(s, nodes, leaves.drop_last(), d),
            leaf_stack(nodes, leaves.last()).unwrap(),
            d,
        );
    }
}

/// Each node that was hit has one sample, leaf first up to the root, and there is no other
/// sample. They stand in the order in which the nodes were first hit.
pub proof fn law_leaves_kept<D: Demangler>(p: CpuProfileView, mapping: Seq<char>, d: D)
    requires
        nodes_apart(p.nodes),
        acyclic(p),
        values_fit(p),
        cpu_profile(p, mapping, d).string_table.len() <= i64::MAX,
        cpu_profile(p, mapping, d).location.len() <= u64::MAX,
    ensures
        cpu_profile(p, mapping, d).sample.len() == first_seen(p.samples).len(),
        forall|j: int|
            0 <= j < cpu_profile(p, mapping, d).sample.len() ==> leaf_kept(
                cpu_profile(p, mapping, d),
                #[trigger] cpu_profile(p, mapping, d).sample[j],
                p,
                first_seen(p.samples)[j],
                d,
            ),
        1000 * p.start_time <= i64::MAX && 1000 * p.start_time >= i64::MIN ==> cpu_profile(p, mapping, d).time_nanos
            == 1000 * p.start_time,
        0 <= 1000 * (p.end_time - p.start_time) <= i64::MAX ==> cpu_profile(p, mapping, d).duration_nanos == 1000 * (
        p.end_time - p.start_time),
{
    let out = cpu_profile(p, mapping, d);
    let s = cpu_tables(p, mapping, d);
    let leaves = first_seen(p.samples);
    let frames = frames_by_id(p.nodes);
    let start = start_sites("samples"@, "count"@, "cpu"@, "nanoseconds"@, mapping);
    crate::tables::lemma_start_tables("samples"@, "count"@, "cpu"@, "nanoseconds"@, mapping);
    lemma_start_sited("samples"@, "count"@, "cpu"@, "nanoseconds"@, mapping, frames, d);
    lemma_cpu_locations(start, p.nodes, leaves, d);
    lemma_leaves(start, p.nodes, leaves, d);
    assert forall|j: int| 0 <= j < out.sample.len() implies leaf_kept(
        out,
        #[trigger] out.sample[j],
        p,
        leaves[j],
        d,
    ) by {
        let leaf = leaves[j];
        let way = lemma_leaf(p.nodes, leaf);
        let sites = sites_on(p.nodes, way);
        let got = out.sample[j];
        assert(all_in(s, leaf_stack(p.nodes, leaves[j]).unwrap()));
        assert forall|i: int| 0 <= i < way.len() implies frame_shown(
            out,
            #[trigger] got.location_id[i],
            p.nodes[way[i]].call_frame,
            d,
        ) by {
            assert(s.nodes.contains(sites[i].id));
            lemma_node_shown(s, out, sites[i].id, frames, d);
        }
        lemma_hits(p.samples, leaf);
        lemma_micros(p, p.samples.len(), leaf);
        assert(p.samples.take(p.samples.len() as int) =~= p.samples);
        assert(deltas(p).take(p.samples.len() as int) =~= deltas(p));
        lemma_count_nonnegative(p.samples, leaf);
        assert(crate::num::is_i64(sum_of(p.samples, deltas(p), first_seen(p.samples)[j]) * 1000));
        assert(sample_of_leaf(out, got, p, leaf, way, d));
    }
}

} // verus!

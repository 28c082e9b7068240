//! V8 `.heapprofile` (Inspector `HeapProfiler.SamplingHeapProfile`) as pprof.
//!
//! The format is a call tree with the bytes that each node allocated, and a list of
//! allocation samples that refer to the nodes. Each node that allocated becomes one
//! pprof sample with a number of objects and of bytes.
use vstd::prelude::*;
use crate::codec::profile_bytes;
use crate::demangle::{Demangler, MoonBit};
use crate::gz::{compress_profile, gzipped, loaded, LoadError};
use crate::num::{fits_i64, is_i64};
use crate::pool::{place, text_id, NumberIndex};
use crate::proto::{sample_views, Mapping, Profile, ProfileView, Sample, SampleView};
use crate::tables::{
    lemma_fixed_kept, one_mapping, only_mapping, profile_ok, sample_ok, sample_types,
};
use crate::tally::{
    count_of, counted, counted_sample, first_seen, lemma_absent, lemma_count_nonnegative,
    lemma_first_seen, sum, tally_fits, tally_values, NodeTally,
};
use crate::v8::{
    lemma_sites_entered, mapping_text, sites_entered, sites_ok, start_sites,
    CallFrame, CallFrameView, Site, SiteTables, SiteTablesView,
};

verus! {

/// A V8 sampling heap profile.
#[derive(Debug)]
pub struct HeapProfile {
    /// Root of the call tree.
    pub head: HeapNode,
    /// Allocation samples. May be empty.
    pub samples: Vec<HeapSample>,
}

/// One node of the call tree.
#[derive(Debug)]
pub struct HeapNode {
    pub call_frame: CallFrame,
    /// Bytes of the allocations whose top frame is this node.
    pub self_size: i64,
    pub id: i64,
    pub children: Vec<HeapNode>,
}

/// One allocation sample.
#[derive(Clone, Copy, Debug, PartialEq, Eq, Structural)]
pub struct HeapSample {
    /// Bytes sampled.
    pub size: i64,
    /// The node that allocated.
    pub node_id: i64,
    /// V8's running number of the sample. It is not used.
    pub ordinal: i64,
}

/// The value of a [`HeapNode`].
pub struct HeapNodeView {
    pub call_frame: CallFrameView,
    pub self_size: i64,
    pub id: i64,
    pub children: Seq<HeapNodeView>,
}

impl HeapNode {
    /// The value of the node.
    pub open spec fn tree(self) -> HeapNodeView
        decreases self,
    {
        HeapNodeView {
            call_frame: self.call_frame@,
            self_size: self.self_size,
            id: self.id,
            children: Seq::new(
                self.children@.len(),
                |i: int|
                    if 0 <= i < self.children@.len() {
                        self.children@[i].tree()
                    } else {
                        arbitrary()
                    },
            ),
        }
    }
}

/// The values of a list of nodes.
pub open spec fn trees(nodes: Seq<HeapNode>) -> Seq<HeapNodeView> {
    Seq::new(nodes.len(), |i: int| nodes[i].tree())
}

/// A node as it is met on the way through the tree: with the ids from itself up to
/// the root.
pub struct VisitView {
    pub site: Site,
    pub self_size: i64,
    pub path: Seq<i64>,
}

/// The nodes of a tree, each before its children, below the nodes of `above`.
pub open spec fn visits(node: HeapNodeView, above: Seq<i64>) -> Seq<VisitView>
    decreases node, 1nat,
{
    let path = seq![node.id] + above;
    seq![
        VisitView {
            site: Site { id: node.id, frame: node.call_frame },
            self_size: node.self_size,
            path,
        },
    ] + visits_of(node.children, path)
}

/// The nodes of several trees.
pub open spec fn visits_of(nodes: Seq<HeapNodeView>, above: Seq<i64>) -> Seq<VisitView>
    decreases nodes, 0nat,
{
    if nodes.len() == 0 {
        Seq::empty()
    } else {
        visits_of(nodes.drop_last(), above) + visits(nodes.last(), above)
    }
}

/// The nodes in which something was allocated.
pub open spec fn allocating(vs: Seq<VisitView>) -> Seq<VisitView>
    decreases vs.len(),
{
    if vs.len() == 0 {
        Seq::empty()
    } else if vs.last().self_size > 0 {
        allocating(vs.drop_last()).push(vs.last())
    } else {
        allocating(vs.drop_last())
    }
}

/// The node that each allocation sample refers to.
pub open spec fn sampled_nodes(samples: Seq<HeapSample>) -> Seq<i64> {
    Seq::new(samples.len(), |i: int| samples[i].node_id)
}

/// Weights of no interest.
pub open spec fn no_weights(n: nat) -> Seq<i64> {
    Seq::new(n, |i: int| 0i64)
}

/// The number of objects that a node allocated: its allocation samples, or one where
/// the profile lists no samples at all.
pub open spec fn objects(samples: Seq<HeapSample>, id: i64) -> int {
    if samples.len() == 0 {
        1
    } else {
        count_of(sampled_nodes(samples), id)
    }
}

/// The nodes of a profile that allocated, each before those that it calls.
pub open spec fn allocations(p: HeapProfile) -> Seq<VisitView> {
    allocating(visits(p.head.tree(), Seq::empty()))
}

/// The sum of all bytes.
pub open spec fn byte_total(vs: Seq<VisitView>) -> int {
    sum(Seq::new(vs.len(), |i: int| vs[i].self_size as int))
}

/// The sum of all objects.
pub open spec fn object_total(vs: Seq<VisitView>, samples: Seq<HeapSample>) -> int {
    sum(Seq::new(vs.len(), |i: int| objects(samples, vs[i].site.id)))
}

/// Whether all numbers fit in 64 bits.
pub open spec fn values_fit(p: HeapProfile) -> bool {
    &&& tally_fits(sampled_nodes(p.samples@), no_weights(p.samples@.len()))
    &&& is_i64(byte_total(allocations(p)))
    &&& is_i64(object_total(allocations(p), p.samples@))
}

/// A path as location ids.
pub open spec fn path_ids(nodes: Seq<i64>, path: Seq<i64>) -> Seq<u64> {
    Seq::new(path.len(), |i: int| place(nodes, path[i]))
}

/// The sample of a node.
pub open spec fn node_sample(nodes: Seq<i64>, samples: Seq<HeapSample>, v: VisitView) -> SampleView {
    counted(path_ids(nodes, v.path), (objects(samples, v.site.id) as i64, v.self_size))
}

/// The nodes without their paths.
pub open spec fn sites_of(vs: Seq<VisitView>) -> Seq<Site> {
    Seq::new(vs.len(), |i: int| vs[i].site)
}

/// The tables of a profile: every node of the tree is entered.
pub open spec fn heap_tables<D: Demangler>(p: HeapProfile, mapping: Seq<char>, d: D) -> SiteTablesView {
    sites_entered(
        start_sites("alloc_objects"@, "count"@, "alloc_space"@, "bytes"@, mapping),
        sites_of(visits(p.head.tree(), Seq::empty())),
        d,
    )
}

/// The pprof profile of a heap profile: one sample per node that allocated.
pub open spec fn heap_profile<D: Demangler>(p: HeapProfile, mapping: Seq<char>, d: D) -> ProfileView {
    let s = heap_tables(p, mapping, d);
    let strings = s.tables.strings;
    let types = sample_types(strings, "alloc_objects"@, "count"@, "alloc_space"@, "bytes"@);
    ProfileView {
        sample_type: types,
        sample: Seq::new(
            allocations(p).len(),
            |i: int| node_sample(s.nodes, p.samples@, allocations(p)[i]),
        ),
        mapping: seq![only_mapping(text_id(strings, mapping))],
        location: s.tables.locations,
        function: s.tables.functions,
        string_table: strings,
        drop_frames: 0,
        keep_frames: 0,
        time_nanos: 0,
        duration_nanos: 0,
        period_type: Some(types[1]),
        period: 1,
        comment: Seq::empty(),
        default_sample_type: types[1].ty,
        doc_url: 0,
    }
}

/// Counts of what a conversion produced.
#[derive(Clone, Copy, Debug, PartialEq, Eq, Structural)]
pub struct Stats {
    /// Number of pprof samples: nodes that allocated.
    pub samples: usize,
    pub functions: usize,
    pub locations: usize,
    /// Bytes of all samples.
    pub total_bytes: i64,
    /// Objects of all samples.
    pub total_objects: i64,
}

/// The counts of a conversion.
pub open spec fn stats_of(p: HeapProfile, out: ProfileView) -> Stats {
    Stats {
        samples: out.sample.len() as usize,
        functions: out.function.len() as usize,
        locations: out.location.len() as usize,
        total_bytes: byte_total(allocations(p)) as i64,
        total_objects: object_total(allocations(p), p.samples@) as i64,
    }
}

/// A converted profile.
pub struct EncodedProfile {
    /// gzip-compressed pprof protobuf.
    pub encoded: Vec<u8>,
    pub stats: Stats,
}

/// Why a profile was not converted.
#[derive(Clone, Copy, Debug, PartialEq, Eq, Structural)]
pub enum BuildError {
    /// A number of objects or bytes does not fit in 64 bits.
    Overflow,
    /// Compression failed.
    Compress,
}

/// A node met on the way through the tree.
struct Visit<'a> {
    node: &'a HeapNode,
    path: Vec<i64>,
}

spec fn visit_view(v: Visit) -> VisitView {
    VisitView {
        site: Site { id: v.node.id, frame: v.node.call_frame@ },
        self_size: v.node.self_size,
        path: v.path@,
    }
}

spec fn visit_views(s: Seq<Visit>) -> Seq<VisitView> {
    Seq::new(s.len(), |i: int| visit_view(s[i]))
}

/// Appends the nodes of a tree, each before its children.
fn walk<'a>(node: &'a HeapNode, above: &Vec<i64>, out: &mut Vec<Visit<'a>>)
    ensures
        visit_views(final(out)@) == visit_views(old(out)@) + visits(node.tree(), above@),
    decreases node,
{
    let mut path: Vec<i64> = Vec::new();
    path.push(node.id);
    path.extend_from_slice(above.as_slice());
    let ghost p = seq![node.id] + above@;
    assert(path@ =~= p);
    let mut own: Vec<i64> = Vec::new();
    own.extend_from_slice(path.as_slice());
    assert(own@ =~= p);
    let here = Visit { node, path: own };
    let ghost before = visit_views(out@);
    let ghost head = visit_view(here);
    out.push(here);
    let ghost list = node.tree().children;
    assert(list =~= trees(node.children@));
    assert(visit_views(out@) =~= before.push(head) + visits_of(list.take(0), p));
    for i in 0..node.children.len()
        invariant
            path@ == p,
            list == trees(node.children@),
            visit_views(out@) == before.push(head) + visits_of(list.take(i as int), p),
        decreases node.children@.len() - i,
    {
        assert(list.take(i + 1).drop_last() =~= list.take(i as int));
        let ghost mid = visits_of(list.take(i as int), p);
        walk(&node.children[i], &path, out);
        assert(visit_views(out@) =~= before.push(head) + visits_of(list.take(i + 1), p));
    }
    assert(list.take(list.len() as int) =~= list);
    assert(visit_views(out@) =~= before + visits(node.tree(), above@));
}

/// Whether every id on a path is that of a node met, or stands above.
spec fn paths_known(vs: Seq<VisitView>, all: Seq<VisitView>, above: Seq<i64>) -> bool {
    forall|i: int, j: int|
        0 <= i < vs.len() && 0 <= j < vs[i].path.len() ==> id_known(#[trigger] vs[i].path[j], all, above)
}

spec fn id_known(id: i64, all: Seq<VisitView>, above: Seq<i64>) -> bool {
    above.contains(id) || exists|k: int| 0 <= k < all.len() && (#[trigger] all[k]).site.id == id
}

proof fn lemma_paths_known(node: HeapNodeView, above: Seq<i64>)
    ensures
        paths_known(visits(node, above), visits(node, above), above),
    decreases node, 1nat,
{
    let all = visits(node, above);
    let path = seq![node.id] + above;
    let below = visits_of(node.children, path);
    lemma_paths_known_of(node.children, path);
    assert(all[0].site.id == node.id);
    assert forall|i: int, j: int| 0 <= i < all.len() && 0 <= j < all[i].path.len() implies id_known(
        #[trigger] all[i].path[j],
        all,
        above,
    ) by {
        let id = all[i].path[j];
        if i == 0 {
            if j > 0 {
                assert(above[j - 1] == id);
            }
        } else {
            assert(all[i] == below[i - 1]);
            assert(id_known(below[i - 1].path[j], below, path));
            if path.contains(id) {
                let k = path.index_of(id);
                if k > 0 {
                    assert(above[k - 1] == id);
                }
            } else {
                let k = choose|k: int| 0 <= k < below.len() && (#[trigger] below[k]).site.id == id;
                assert(all[k + 1] == below[k]);
            }
        }
    }
}

proof fn lemma_paths_known_of(nodes: Seq<HeapNodeView>, above: Seq<i64>)
    ensures
        paths_known(visits_of(nodes, above), visits_of(nodes, above), above),
    decreases nodes, 0nat,
{
    if nodes.len() > 0 {
        let all = visits_of(nodes, above);
        let a = visits_of(nodes.drop_last(), above);
        let b = visits(nodes.last(), above);
        lemma_paths_known_of(nodes.drop_last(), above);
        lemma_paths_known(nodes.last(), above);
        assert forall|i: int, j: int| 0 <= i < all.len() && 0 <= j < all[i].path.len() implies id_known(
            #[trigger] all[i].path[j],
            all,
            above,
        ) by {
            let id = all[i].path[j];
            if i < a.len() {
                assert(id_known(a[i].path[j], a, above));
                if !above.contains(id) {
                    let k = choose|k: int| 0 <= k < a.len() && (#[trigger] a[k]).site.id == id;
                    assert(all[k] == a[k]);
                }
            } else {
                assert(id_known(b[i - a.len()].path[j], b, above));
                if !above.contains(id) {
                    let k = choose|k: int| 0 <= k < b.len() && (#[trigger] b[k]).site.id == id;
                    assert(all[k + a.len()] == b[k]);
                }
            }
        }
    }
}

/// Enters every node.
fn enter_all<D: Demangler>(state: &mut SiteTables, vs: &Vec<Visit>, d: &D)
    requires
        old(state).wf(),
    ensures
        final(state).wf(),
        final(state)@ == sites_entered(old(state)@, sites_of(visit_views(vs@)), *d),
{
    let ghost s0 = state@;
    let ghost sites = sites_of(visit_views(vs@));
    for i in 0..vs.len()
        invariant
            sites == sites_of(visit_views(vs@)),
            state.wf(),
            state@ == sites_entered(s0, sites.take(i as int), *d),
    {
        assert(sites.take(i + 1).drop_last() =~= sites.take(i as int));
        let _ = state.intern_location(vs[i].node.id, &vs[i].node.call_frame, d);
    }
    assert(sites.take(sites.len() as int) =~= sites);
}

/// The location ids of a path whose nodes have been entered.
fn ids_of_path(state: &SiteTables, path: &Vec<i64>) -> (ids: Vec<u64>)
    requires
        state.wf(),
        forall|j: int| 0 <= j < path@.len() ==> state@.nodes.contains(#[trigger] path@[j]),
    ensures
        ids@ == path_ids(state@.nodes, path@),
{
    let mut ids: Vec<u64> = Vec::new();
    for j in 0..path.len()
        invariant
            state.wf(),
            forall|j: int| 0 <= j < path@.len() ==> state@.nodes.contains(#[trigger] path@[j]),
            ids@ == path_ids(state@.nodes, path@).take(j as int),
    {
        assert(state@.nodes.contains(path@[j as int]));
        if let Some(id) = state.location_of(path[j]) {
            ids.push(id);
        }
        assert(ids@ =~= path_ids(state@.nodes, path@).take(j + 1));
    }
    assert(path_ids(state@.nodes, path@).take(path@.len() as int) =~= path_ids(state@.nodes, path@));
    ids
}

/// The allocation samples counted by node.
fn count_samples(samples: &Vec<HeapSample>) -> (r: Option<(Vec<(i64, i64)>, NumberIndex)>)
    ensures
        ({
            let ids = sampled_nodes(samples@);
            match r {
                Some((values, index)) => {
                    &&& tally_fits(ids, no_weights(samples@.len()))
                    &&& index.wf()
                    &&& index.table() == first_seen(ids)
                    &&& values@ == tally_values(ids, no_weights(samples@.len()))
                },
                None => !tally_fits(ids, no_weights(samples@.len())),
            }
        }),
{
    let ghost ids = sampled_nodes(samples@);
    let ghost w = no_weights(samples@.len());
    let mut tally = NodeTally::new();
    assert(ids.take(0) =~= Seq::<i64>::empty());
    assert(w.take(0) =~= Seq::<i64>::empty());
    for i in 0..samples.len()
        invariant
            ids == sampled_nodes(samples@),
            w == no_weights(samples@.len()),
            tally.wf(),
            tally.seen() == ids.take(i as int),
            tally.weights() == w.take(i as int),
    {
        assert(ids.take(i + 1) =~= ids.take(i as int).push(ids[i as int]));
        assert(w.take(i + 1) =~= w.take(i as int).push(0));
        tally.add(samples[i].node_id, 0);
    }
    assert(ids.take(ids.len() as int) =~= ids);
    assert(w.take(w.len() as int) =~= w);
    match tally.finish() {
        Some((_, values, index)) => Some((values, index)),
        None => None,
    }
}

/// A number of objects fits in 64 bits.
pub(crate) proof fn lemma_objects_fit(p: HeapProfile, id: i64)
    requires
        values_fit(p),
    ensures
        0 <= objects(p.samples@, id) <= i64::MAX,
{
    let ids = sampled_nodes(p.samples@);
    lemma_first_seen(ids);
    lemma_count_nonnegative(ids, id);
    if first_seen(ids).contains(id) {
        let k = first_seen(ids).index_of(id);
        assert(first_seen(ids)[k] == id);
    } else {
        lemma_absent(ids, no_weights(p.samples@.len()), id);
    }
}

/// The number of objects of a node.
fn object_count(samples: &Vec<HeapSample>, values: &Vec<(i64, i64)>, index: &NumberIndex, id: i64) -> (n: i64)
    requires
        index.wf(),
        index.table() == first_seen(sampled_nodes(samples@)),
        tally_fits(sampled_nodes(samples@), no_weights(samples@.len())),
        values@ == tally_values(sampled_nodes(samples@), no_weights(samples@.len())),
    ensures
        n == objects(samples@, id),
        n >= 0,
{
    if samples.len() == 0 {
        return 1;
    }
    let ghost ids = sampled_nodes(samples@);
    proof {
        lemma_first_seen(ids);
        lemma_count_nonnegative(ids, id);
    }
    match index.get(id) {
        Some(place) => {
            let ghost k = first_seen(ids).index_of(id);
            assert(0 <= k < first_seen(ids).len() && first_seen(ids)[k] == id);
            assert(count_of(ids, first_seen(ids)[k]) <= i64::MAX);
            assert(values.len() == first_seen(ids).len());
            values[(place - 1) as usize].0
        },
        None => {
            proof {
                assert(!ids.contains(id));
                lemma_absent(ids, no_weights(samples@.len()), id);
            }
            0
        },
    }
}

/// The samples of the nodes that allocated, with the sums of their values. `None`
/// where a sum does not fit in 64 bits.
fn node_samples(
    state: &SiteTables,
    vs: &Vec<Visit>,
    samples: &Vec<HeapSample>,
    values: &Vec<(i64, i64)>,
    index: &NumberIndex,
) -> (r: Option<(Vec<Sample>, i64, i64)>)
    requires
        state.wf(),
        index.wf(),
        index.table() == first_seen(sampled_nodes(samples@)),
        tally_fits(sampled_nodes(samples@), no_weights(samples@.len())),
        values@ == tally_values(sampled_nodes(samples@), no_weights(samples@.len())),
        forall|i: int, j: int|
            0 <= i < vs@.len() && 0 <= j < vs@[i].path@.len() ==> state@.nodes.contains(#[trigger] vs@[i].path@[j]),
    ensures
        ({
            let all = allocating(visit_views(vs@));
            match r {
                Some((out, bytes, count)) => {
                    &&& is_i64(byte_total(all)) && bytes == byte_total(all)
                    &&& is_i64(object_total(all, samples@)) && count == object_total(all, samples@)
                    &&& sample_views(out@) == Seq::new(all.len(), |i: int| node_sample(state@.nodes, samples@, all[i]))
                    &&& forall|i: int, j: int|
                        0 <= i < out@.len() && 0 <= j < out@[i].location_id@.len() ==> 1
                            <= #[trigger] out@[i].location_id@[j] <= state@.nodes.len()
                },
                None => !is_i64(byte_total(all)) || !is_i64(object_total(all, samples@)),
            }
        }),
{
    let ghost v = visit_views(vs@);
    let mut out: Vec<Sample> = Vec::new();
    let mut bytes: i128 = 0;
    let mut count: i128 = 0;
    proof {
        let all = allocating(v.take(0));
        assert(sample_views(out@) =~= Seq::new(all.len(), |i: int| node_sample(state@.nodes, samples@, all[i])));
        state.lemma_ok();
    }
    for i in 0..vs.len()
        invariant
            v == visit_views(vs@),
            state.wf(),
            sites_ok(state@),
            index.wf(),
            index.table() == first_seen(sampled_nodes(samples@)),
            tally_fits(sampled_nodes(samples@), no_weights(samples@.len())),
            values@ == tally_values(sampled_nodes(samples@), no_weights(samples@.len())),
            forall|i: int, j: int|
                0 <= i < vs@.len() && 0 <= j < vs@[i].path@.len() ==> state@.nodes.contains(
                    #[trigger] vs@[i].path@[j],
                ),
            bytes == byte_total(allocating(v.take(i as int))),
            count == object_total(allocating(v.take(i as int)), samples@),
            0 <= bytes <= i * 0x8000_0000_0000_0000,
            0 <= count <= i * 0x8000_0000_0000_0000,
            sample_views(out@) == Seq::new(
                allocating(v.take(i as int)).len(),
                |k: int| node_sample(state@.nodes, samples@, allocating(v.take(i as int))[k]),
            ),
            forall|i: int, j: int|
                0 <= i < out@.len() && 0 <= j < out@[i].location_id@.len() ==> 1
                    <= #[trigger] out@[i].location_id@[j] <= state@.nodes.len(),
    {
        let ghost done = allocating(v.take(i as int));
        let ghost next = allocating(v.take(i + 1));
        let ghost before = out@;
        assert(v.take(i + 1).drop_last() =~= v.take(i as int));
        proof {
            assert(i * 0x8000_0000_0000_0000 < 0x7fff_ffff_ffff_ffff_ffff_ffff_ffff_ffff - 0x8000_0000_0000_0000)
                by (nonlinear_arith)
                requires
                    i < 0xffff_ffff_ffff_ffff,
            ;
        }
        let node = vs[i].node;
        if node.self_size > 0 {
            let n: i64 = object_count(samples, values, index, node.id);
            assert forall|j: int| 0 <= j < vs@[i as int].path@.len() implies state@.nodes.contains(
                #[trigger] vs@[i as int].path@[j],
            ) by {}
            let ids = ids_of_path(state, &vs[i].path);
            let ghost ids_v = ids@;
            let one = counted_sample(ids, (n, node.self_size));
            out.push(one);
            bytes = bytes + node.self_size as i128;
            count = count + n as i128;
            proof {
                assert(next == done.push(v[i as int]));
                let b0 = Seq::new(done.len(), |k: int| done[k].self_size as int);
                let b1 = Seq::new(next.len(), |k: int| next[k].self_size as int);
                assert(b1.drop_last() =~= b0);
                let c0 = Seq::new(done.len(), |k: int| objects(samples@, done[k].site.id));
                let c1 = Seq::new(next.len(), |k: int| objects(samples@, next[k].site.id));
                assert(c1.drop_last() =~= c0);
                assert(one@ == node_sample(state@.nodes, samples@, v[i as int]));
                assert(sample_views(out@) =~= sample_views(before).push(one@));
                assert(sample_views(out@) =~= Seq::new(
                    next.len(),
                    |k: int| node_sample(state@.nodes, samples@, next[k]),
                ));
                assert forall|x: int, j: int|
                    0 <= x < out@.len() && 0 <= j < out@[x].location_id@.len() implies 1
                    <= #[trigger] out@[x].location_id@[j] <= state@.nodes.len() by {
                    if x < before.len() {
                        assert(out@[x] == before[x]);
                    } else {
                        assert(out@[x].location_id@ == ids_v);
                        assert(state@.nodes.contains(vs@[i as int].path@[j]));
                    }
                }
            }
        }
    }
    assert(v.take(v.len() as int) =~= v);
    if !fits_i64(bytes) || !fits_i64(count) {
        return None;
    }
    Some((out, bytes as i64, count as i64))
}

/// Converts a [`HeapProfile`] into pprof.
pub struct Builder<D: Demangler> {
    pub profile: HeapProfile,
    pub demangler: D,
    pub mapping: Option<String>,
}

impl Builder<MoonBit> {
    /// A builder that demangles MoonBit names.
    pub fn new(profile: HeapProfile) -> (r: Self)
        ensures
            r.profile == profile,
            r.mapping is None,
    {
        Builder { profile, demangler: MoonBit, mapping: None }
    }
}

impl<D: Demangler> Builder<D> {
    /// Uses another demangler.
    pub fn demangle_with<E: Demangler>(self, demangler: E) -> (r: Builder<E>)
        ensures
            r.profile == self.profile,
            r.demangler == demangler,
            r.mapping == self.mapping,
    {
        Builder { profile: self.profile, demangler, mapping: self.mapping }
    }

    /// Names the file of the profile's mapping.
    pub fn mapping_filename(self, s: &str) -> (r: Self)
        ensures
            r.profile == self.profile,
            r.demangler == self.demangler,
            mapping_text(r.mapping) == s@,
    {
        Builder { profile: self.profile, demangler: self.demangler, mapping: Some(s.to_owned()) }
    }

    /// Builds the pprof profile.
    pub fn build(self) -> (r: Result<(Profile, Stats), BuildError>)
        ensures
            match r {
                Ok((out, stats)) => {
                    &&& values_fit(self.profile)
                    &&& out@ == heap_profile(self.profile, mapping_text(self.mapping), self.demangler)
                    &&& profile_ok(out@)
                    &&& stats == stats_of(self.profile, out@)
                },
                Err(BuildError::Overflow) => !values_fit(self.profile),
                Err(BuildError::Compress) => false,
            },
    {
        let profile = self.profile;
        let d = self.demangler;
        let ghost map_text = mapping_text(self.mapping);
        let mapping_name: String = match self.mapping {
            Some(s) => s,
            None => String::new(),
        };
        assert(mapping_name@ =~= map_text);
        let (mut state, fixed) = SiteTables::new(
            "alloc_objects",
            "count",
            "alloc_space",
            "bytes",
            mapping_name.as_str(),
        );
        let ghost start = state@;
        let (values, index) = match count_samples(&profile.samples) {
            Some(x) => x,
            None => {
                return Err(BuildError::Overflow);
            },
        };
        let mut vs: Vec<Visit> = Vec::new();
        let above: Vec<i64> = Vec::new();
        walk(&profile.head, &above, &mut vs);
        let ghost all = visits(profile.head.tree(), Seq::empty());
        assert(visit_views(vs@) =~= all);
        enter_all(&mut state, &vs, &d);
        let ghost s = state@;
        proof {
            state.lemma_ok();
            lemma_sites_entered(start, sites_of(all), d);
            lemma_paths_known(profile.head.tree(), Seq::empty());
            assert forall|i: int, j: int|
                0 <= i < vs@.len() && 0 <= j < vs@[i].path@.len() implies s.nodes.contains(
                #[trigger] vs@[i].path@[j],
            ) by {
                assert(all[i] == visit_view(vs@[i]));
                let id = all[i].path[j];
                assert(id_known(all[i].path[j], all, Seq::empty()));
                let k = choose|k: int| 0 <= k < all.len() && (#[trigger] all[k]).site.id == id;
                assert(sites_of(all)[k].id == id);
            }
        }
        let (sample, total_bytes, total_objects) = match node_samples(
            &state,
            &vs,
            &profile.samples,
            &values,
            &index,
        ) {
            Some(x) => x,
            None => {
                return Err(BuildError::Overflow);
            },
        };
        let stats = Stats {
            samples: sample.len(),
            functions: state.function_count(),
            locations: state.location_count(),
            total_bytes,
            total_objects,
        };
        let (string_table, function, location) = state.into_tables().into_parts();
        proof {
            lemma_fixed_kept(start.tables.strings, s.tables.strings, "alloc_objects"@, "count"@, "alloc_space"@, "bytes"@, map_text);
        }
        let mut mapping: Vec<Mapping> = Vec::new();
        mapping.push(one_mapping(fixed.mapping));
        let out = Profile {
            sample_type: fixed.types,
            sample,
            mapping,
            location,
            function,
            string_table,
            drop_frames: 0,
            keep_frames: 0,
            time_nanos: 0,
            duration_nanos: 0,
            period_type: Some(fixed.default_type),
            period: 1,
            comment: Vec::new(),
            default_sample_type: fixed.default_type.ty,
            doc_url: 0,
        };
        proof {
            assert(out@ =~= heap_profile(profile, map_text, d));
            assert forall|i: int| 0 <= i < out@.sample.len() implies sample_ok(#[trigger] out@.sample[i], out@) by {
                assert(out@.sample[i] == node_sample(s.nodes, profile.samples@, allocations(profile)[i]));
                assert(out@.sample[i] == out.sample@[i]@);
            }
        }
        Ok((out, stats))
    }

    /// Builds the pprof profile and compresses it.
    pub fn encode(self) -> (r: Result<EncodedProfile, BuildError>)
        ensures
            ({
                let out = heap_profile(self.profile, mapping_text(self.mapping), self.demangler);
                match r {
                    Ok(e) => {
                        &&& values_fit(self.profile)
                        &&& gzipped(profile_bytes(out)) == Some(e.encoded@)
                        &&& loaded(e.encoded@) == Ok::<ProfileView, LoadError>(out)
                        &&& e.stats == stats_of(self.profile, out)
                    },
                    Err(BuildError::Overflow) => !values_fit(self.profile),
                    Err(BuildError::Compress) => values_fit(self.profile) && gzipped(profile_bytes(out)) is None,
                }
            }),
    {
        match self.build() {
            Ok((out, stats)) => match compress_profile(&out) {
                Ok(encoded) => Ok(EncodedProfile { encoded, stats }),
                Err(_) => Err(BuildError::Compress),
            },
            Err(e) => Err(e),
        }
    }
}

/// The pprof profile loses nothing: its bytes are those of the nodes that allocated, and its
/// objects are those that are counted for them.
pub proof fn law_heap_totals<D: Demangler>(p: HeapProfile, mapping: Seq<char>, d: D)
    requires
        values_fit(p),
    ensures
        ({
            let out = heap_profile(p, mapping, d).sample;
            &&& sum(Seq::new(out.len(), |i: int| out[i].value[0] as int)) == object_total(allocations(p), p.samples@)
            &&& sum(Seq::new(out.len(), |i: int| out[i].value[1] as int)) == byte_total(allocations(p))
        }),
{
    let out = heap_profile(p, mapping, d).sample;
    let vs = allocations(p);
    let s = sampled_nodes(p.samples@);
    assert forall|i: int| 0 <= i < vs.len() implies out[i].value[0] == objects(p.samples@, vs[i].site.id)
        && #[trigger] out[i].value[1] == vs[i].self_size by {
        let id = vs[i].site.id;
        if p.samples@.len() > 0 {
            lemma_count_nonnegative(s, id);
            if s.contains(id) {
                lemma_first_seen(s);
                assert(first_seen(s).contains(id));
                let k = first_seen(s).index_of(id);
                assert(count_of(s, first_seen(s)[k]) <= i64::MAX);
            } else {
                lemma_absent(s, no_weights(p.samples@.len()), id);
            }
        }
    }
    assert(Seq::new(out.len(), |i: int| out[i].value[0] as int) =~= Seq::new(
        vs.len(),
        |i: int| objects(p.samples@, vs[i].site.id),
    ));
    assert(Seq::new(out.len(), |i: int| out[i].value[1] as int) =~= Seq::new(
        vs.len(),
        |i: int| vs[i].self_size as int,
    ));
}

} // verus!

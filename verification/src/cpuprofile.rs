//! V8 `.cpuprofile` (Inspector `Profiler.Profile`) as pprof.
//!
//! The format is a tree of nodes, a list of leaf node ids, one per sample, and the
//! microseconds between samples. Samples are gathered by leaf node, and each leaf
//! becomes one pprof sample with a count and nanoseconds.
use vstd::prelude::*;
use std::collections::HashMap;
use crate::codec::profile_bytes;
use crate::demangle::{Demangler, MoonBit};
use crate::gz::{compress_profile, gzipped, loaded, LoadError};
use crate::mean::{mean_i64, round_mean};
use crate::num::{
    clamp, clamped, fits_i64, is_i64, saturating_product,
};
use crate::pool::{extends, law_place_kept, lemma_extends_trans, place, text_id};
use crate::proto::{sample_views, Mapping, Profile, ProfileView, Sample, SampleView};
use crate::tables::{lemma_fixed_kept, one_mapping, only_mapping, profile_ok, sample_types};
use crate::tally::{
    count_of, counted, counted_sample, first_seen, law_totals_kept, lemma_count_nonnegative,
    lemma_sum_scaled, sum, sum_of, tally_fits, tally_values, total, NodeTally,
};
use crate::v8::{
    mapping_text, sites_entered, start_sites, CallFrame, CallFrameView, Site, SiteTables,
    SiteTablesView,
};

verus! {

broadcast use vstd::std_specs::hash::group_hash_axioms;

/// A V8 CPU profile.
#[derive(Debug)]
pub struct CpuProfile {
    pub nodes: Vec<CpuNode>,
    /// The leaf node that each sample hit.
    pub samples: Vec<i64>,
    /// Microseconds before each sample. What is missing counts as 0.
    pub time_deltas: Vec<i64>,
    /// Microseconds.
    pub start_time: i64,
    /// Microseconds.
    pub end_time: i64,
}

/// One node of the call tree.
#[derive(Debug)]
pub struct CpuNode {
    pub id: i64,
    pub call_frame: CallFrame,
    /// Ids of the nodes that it calls.
    pub children: Vec<i64>,
}

/// The value of a [`CpuNode`].
pub struct CpuNodeView {
    pub id: i64,
    pub call_frame: CallFrameView,
    pub children: Seq<i64>,
}

/// The value of a [`CpuProfile`].
pub struct CpuProfileView {
    pub nodes: Seq<CpuNodeView>,
    pub samples: Seq<i64>,
    pub time_deltas: Seq<i64>,
    pub start_time: i64,
    pub end_time: i64,
}

impl View for CpuNode {
    type V = CpuNodeView;

    open spec fn view(&self) -> CpuNodeView {
        CpuNodeView { id: self.id, call_frame: self.call_frame@, children: self.children@ }
    }
}

pub open spec fn node_views(s: Seq<CpuNode>) -> Seq<CpuNodeView> {
    Seq::new(s.len(), |i: int| s[i]@)
}

impl View for CpuProfile {
    type V = CpuProfileView;

    open spec fn view(&self) -> CpuProfileView {
        CpuProfileView {
            nodes: node_views(self.nodes@),
            samples: self.samples@,
            time_deltas: self.time_deltas@,
            start_time: self.start_time,
            end_time: self.end_time,
        }
    }
}

/// The node with this id, the last one where several have it.
pub open spec fn node_index(nodes: Seq<CpuNodeView>, id: i64) -> Option<int>
    decreases nodes.len(),
{
    if nodes.len() == 0 {
        None
    } else if nodes.last().id == id {
        Some(nodes.len() - 1)
    } else {
        node_index(nodes.drop_last(), id)
    }
}

/// The node that lists this id among its children, the last one where several do.
pub open spec fn parent_id(nodes: Seq<CpuNodeView>, id: i64) -> Option<i64>
    decreases nodes.len(),
{
    if nodes.len() == 0 {
        None
    } else if nodes.last().children.contains(id) {
        Some(nodes.last().id)
    } else {
        parent_id(nodes.drop_last(), id)
    }
}

/// The nodes from `id` up to the root. `None` where there are more than `limit`.
pub open spec fn chain(nodes: Seq<CpuNodeView>, id: i64, limit: nat) -> Option<Seq<Site>>
    decreases limit,
{
    match node_index(nodes, id) {
        None => Some(Seq::empty()),
        Some(i) => if limit == 0 {
            None
        } else {
            let here = Site { id: nodes[i].id, frame: nodes[i].call_frame };
            match parent_id(nodes, id) {
                None => Some(seq![here]),
                Some(up) => match chain(nodes, up, (limit - 1) as nat) {
                    Some(rest) => Some(seq![here] + rest),
                    None => None,
                },
            }
        },
    }
}

/// The stack of a leaf, leaf first. `None` where the way up never ends: it is longer
/// than there are nodes.
pub open spec fn leaf_stack(nodes: Seq<CpuNodeView>, leaf: i64) -> Option<Seq<Site>> {
    chain(nodes, leaf, nodes.len())
}

/// The stacks of all leaves end.
pub open spec fn acyclic(p: CpuProfileView) -> bool {
    forall|i: int|
        0 <= i < first_seen(p.samples).len() ==> leaf_stack(p.nodes, #[trigger] first_seen(p.samples)[i]) is Some
}

/// The microseconds before each sample.
pub open spec fn deltas(p: CpuProfileView) -> Seq<i64> {
    Seq::new(
        p.samples.len(),
        |i: int|
            if i < p.time_deltas.len() {
                p.time_deltas[i]
            } else {
                0
            },
    )
}

/// The mean time between samples in nanoseconds, at least 1. The mean is taken in doubles.
pub open spec fn mean_period(p: CpuProfileView) -> int {
    if p.samples.len() == 0 {
        1
    } else {
        let ns = mean_i64(total(deltas(p)), p.samples.len()) * 1000;
        if ns < 1 {
            1
        } else {
            ns
        }
    }
}

/// Whether all numbers of the profile fit in 64 bits.
pub open spec fn values_fit(p: CpuProfileView) -> bool {
    &&& tally_fits(p.samples, deltas(p))
    &&& forall|i: int|
        0 <= i < first_seen(p.samples).len() ==> is_i64(
            sum_of(p.samples, deltas(p), #[trigger] first_seen(p.samples)[i]) * 1000,
        )
    &&& is_i64(total(deltas(p)))
    &&& p.samples.len() > 0 ==> is_i64(mean_i64(total(deltas(p)), p.samples.len()) * 1000)
}

/// The tables with the stack of every leaf entered.
pub open spec fn leaves_entered<D: Demangler>(
    s: SiteTablesView,
    nodes: Seq<CpuNodeView>,
    leaves: Seq<i64>,
    d: D,
) -> SiteTablesView
    decreases leaves.len(),
{
    if leaves.len() == 0 {
        s
    } else {
        sites_entered(
            leaves_entered(s, nodes, leaves.drop_last(), d),
            leaf_stack(nodes, leaves.last()).unwrap(),
            d,
        )
    }
}

/// A stack as location ids.
pub open spec fn site_ids(nodes: Seq<i64>, sites: Seq<Site>) -> Seq<u64> {
    Seq::new(sites.len(), |i: int| place(nodes, sites[i].id))
}

/// The sample of the leaf at position `i`.
pub open spec fn leaf_sample(p: CpuProfileView, places: Seq<i64>, i: int) -> SampleView {
    let v = tally_values(p.samples, deltas(p))[i];
    counted(
        site_ids(places, leaf_stack(p.nodes, first_seen(p.samples)[i]).unwrap()),
        (v.0, (v.1 * 1000) as i64),
    )
}

/// The tables of a profile.
pub open spec fn cpu_tables<D: Demangler>(p: CpuProfileView, mapping: Seq<char>, d: D) -> SiteTablesView {
    leaves_entered(
        start_sites("samples"@, "count"@, "cpu"@, "nanoseconds"@, mapping),
        p.nodes,
        first_seen(p.samples),
        d,
    )
}

/// The pprof profile of a CPU profile: one sample per distinct leaf.
pub open spec fn cpu_profile<D: Demangler>(p: CpuProfileView, mapping: Seq<char>, d: D) -> ProfileView {
    let s = cpu_tables(p, mapping, d);
    let strings = s.tables.strings;
    let types = sample_types(strings, "samples"@, "count"@, "cpu"@, "nanoseconds"@);
    ProfileView {
        sample_type: types,
        sample: Seq::new(first_seen(p.samples).len(), |i: int| leaf_sample(p, s.nodes, i)),
        mapping: seq![only_mapping(text_id(strings, mapping))],
        location: s.tables.locations,
        function: s.tables.functions,
        string_table: strings,
        drop_frames: 0,
        keep_frames: 0,
        time_nanos: clamped(p.start_time * 1000),
        duration_nanos: clamped(clamped(p.end_time - p.start_time) * 1000),
        period_type: Some(types[1]),
        period: mean_period(p) as i64,
        comment: Seq::empty(),
        default_sample_type: 0,
        doc_url: 0,
    }
}

/// Counts of what a conversion produced.
#[derive(Clone, Copy, Debug, PartialEq, Eq, Structural)]
pub struct Stats {
    /// Number of pprof samples: distinct leaf nodes hit.
    pub samples: usize,
    pub functions: usize,
    pub locations: usize,
}

/// A converted profile.
pub struct EncodedProfile {
    /// gzip-compressed pprof protobuf.
    pub encoded: Vec<u8>,
    pub stats: Stats,
}

/// Why a profile was not converted.
#[derive(Clone, Copy, Debug, PartialEq, Eq, Structural)]
pub enum BuildError {
    /// A count or a time does not fit in 64 bits.
    Overflow,
    /// The way from a sampled node up to the root never ends.
    Cycle,
    /// Compression failed.
    Compress,
}

/// Converts a [`CpuProfile`] into pprof.
pub struct Builder<D: Demangler> {
    pub profile: CpuProfile,
    pub demangler: D,
    pub mapping: Option<String>,
}

impl Builder<MoonBit> {
    /// A builder that demangles MoonBit names.
    pub fn new(profile: CpuProfile) -> (r: Self)
        ensures
            r.profile == profile,
            r.mapping is None,
    {
        Builder { profile, demangler: MoonBit, mapping: None }
    }
}

/// Whether `m` gives the position of each node id.
pub(crate) open spec fn indexes_nodes(m: Map<i64, usize>, nodes: Seq<CpuNodeView>) -> bool {
    forall|id: i64|
        #![trigger m.contains_key(id)]
        m.contains_key(id) == (node_index(nodes, id) is Some) && (m.contains_key(id) ==> node_index(nodes, id) == Some(
            m[id] as int,
        ))
}

/// Whether `m` gives the parent of each child id.
spec fn indexes_parents(m: Map<i64, i64>, nodes: Seq<CpuNodeView>) -> bool {
    forall|id: i64|
        #![trigger m.contains_key(id)]
        m.contains_key(id) == (parent_id(nodes, id) is Some) && (m.contains_key(id) ==> parent_id(nodes, id) == Some(
            m[id],
        ))
}

pub(crate) proof fn lemma_node_index(nodes: Seq<CpuNodeView>, id: i64)
    ensures
        node_index(nodes, id) matches Some(i) ==> 0 <= i < nodes.len() && nodes[i].id == id,
    decreases nodes.len(),
{
    if nodes.len() > 0 {
        lemma_node_index(nodes.drop_last(), id);
    }
}

/// The index of each node id.
fn index_nodes(nodes: &Vec<CpuNode>) -> (m: HashMap<i64, usize>)
    ensures
        indexes_nodes(m@, node_views(nodes@)),
{
    let ghost v = node_views(nodes@);
    let mut m: HashMap<i64, usize> = HashMap::new();
    for i in 0..nodes.len()
        invariant
            v == node_views(nodes@),
            indexes_nodes(m@, v.take(i as int)),
    {
        let ghost before = m@;
        m.insert(nodes[i].id, i);
        proof {
            assert(v.take(i + 1).drop_last() =~= v.take(i as int));
            assert forall|id: i64|
                #![trigger m@.contains_key(id)]
                m@.contains_key(id) == (node_index(v.take(i + 1), id) is Some) && (m@.contains_key(id) ==> node_index(
                    v.take(i + 1),
                    id,
                ) == Some(m@[id] as int)) by {
                assert(before.contains_key(id) == (node_index(v.take(i as int), id) is Some));
            }
        }
    }
    assert(v.take(v.len() as int) =~= v);
    m
}

/// The parent of each child id.
fn index_parents(nodes: &Vec<CpuNode>) -> (m: HashMap<i64, i64>)
    ensures
        indexes_parents(m@, node_views(nodes@)),
{
    let ghost v = node_views(nodes@);
    let mut m: HashMap<i64, i64> = HashMap::new();
    for i in 0..nodes.len()
        invariant
            v == node_views(nodes@),
            indexes_parents(m@, v.take(i as int)),
    {
        let ghost before = m@;
        let children = &nodes[i].children;
        assert(children@.take(0) =~= Seq::<i64>::empty());
        for j in 0..children.len()
            invariant
                i < nodes@.len(),
                *children == nodes@[i as int].children,
                forall|id: i64|
                    #![trigger m@.contains_key(id)]
                    (children@.take(j as int).contains(id) ==> m@.contains_key(id) && m@[id] == nodes@[i as int].id) && (
                    !children@.take(j as int).contains(id) ==> m@.contains_key(id) == before.contains_key(id) && (
                    m@.contains_key(id) ==> m@[id] == before[id])),
        {
            let c: i64 = children[j];
            let ghost inner = m@;
            m.insert(c, nodes[i].id);
            proof {
                let old_list = children@.take(j as int);
                let new_list = children@.take(j + 1);
                assert(new_list =~= old_list.push(c));
                assert forall|id: i64| new_list.contains(id) <==> (old_list.contains(id) || id == c) by {
                    if old_list.contains(id) {
                        let k = old_list.index_of(id);
                        assert(new_list[k] == id);
                    }
                    if id == c {
                        assert(new_list[j as int] == id);
                    }
                }
                assert forall|id: i64| #![trigger m@.contains_key(id)] id != c implies m@.contains_key(id) == inner.contains_key(
                    id,
                ) && (inner.contains_key(id) ==> m@[id] == inner[id]) by {}
            }
        }
        proof {
            assert(children@.take(children@.len() as int) =~= children@);
            assert(v.take(i + 1).drop_last() =~= v.take(i as int));
            assert(v.take(i + 1).last().children == children@);
            assert forall|id: i64|
                #![trigger m@.contains_key(id)]
                m@.contains_key(id) == (parent_id(v.take(i + 1), id) is Some) && (m@.contains_key(id) ==> parent_id(
                    v.take(i + 1),
                    id,
                ) == Some(m@[id])) by {
                assert(before.contains_key(id) == (parent_id(v.take(i as int), id) is Some));
            }
        }
    }
    assert(v.take(v.len() as int) =~= v);
    m
}

/// The positions of the nodes from a leaf up to the root. `None` where the way never
/// ends.
fn stack_for_node(
    nodes: &Vec<CpuNode>,
    by_id: &HashMap<i64, usize>,
    parent: &HashMap<i64, i64>,
    leaf: i64,
) -> (r: Option<Vec<usize>>)
    requires
        indexes_nodes(by_id@, node_views(nodes@)),
        indexes_parents(parent@, node_views(nodes@)),
    ensures
        match r {
            Some(path) => {
                &&& leaf_stack(node_views(nodes@), leaf) is Some
                &&& leaf_stack(node_views(nodes@), leaf).unwrap() == sites_at(node_views(nodes@), path@)
                &&& forall|i: int| 0 <= i < path@.len() ==> #[trigger] path@[i] < nodes@.len()
            },
            None => leaf_stack(node_views(nodes@), leaf) is None,
        },
{
    let ghost v = node_views(nodes@);
    let mut path: Vec<usize> = Vec::new();
    let mut id: i64 = leaf;
    let mut left: usize = nodes.len();
    assert(sites_at(v, path@) =~= Seq::<Site>::empty());
    proof {
        if chain(v, id, left as nat) is Some {
            assert(sites_at(v, path@) + chain(v, id, left as nat).unwrap() =~= chain(v, id, left as nat).unwrap());
        }
    }
    loop
        invariant
            v == node_views(nodes@),
            indexes_nodes(by_id@, v),
            indexes_parents(parent@, v),
            forall|i: int| 0 <= i < path@.len() ==> #[trigger] path@[i] < nodes@.len(),
            leaf_stack(v, leaf) == match chain(v, id, left as nat) {
                Some(rest) => Some(sites_at(v, path@) + rest),
                None => None,
            },
        decreases left,
    {
        let i: usize = match by_id.get(&id) {
            Some(i) => *i,
            None => {
                assert(!by_id@.contains_key(id));
                assert(node_index(v, id) is None);
                assert(sites_at(v, path@) + Seq::<Site>::empty() =~= sites_at(v, path@));
                return Some(path);
            },
        };
        assert(by_id@.contains_key(id));
        assert(node_index(v, id) == Some(i as int));
        proof {
            lemma_node_index(v, id);
        }
        if left == 0 {
            return None;
        }
        left -= 1;
        let ghost before = path@;
        path.push(i);
        let ghost here = Site { id: v[i as int].id, frame: v[i as int].call_frame };
        assert(sites_at(v, path@) =~= sites_at(v, before).push(here));
        match parent.get(&id) {
            Some(up) => {
                assert(parent@.contains_key(id));
                assert(parent_id(v, id) == Some(*up));
                proof {
                    if chain(v, *up, left as nat) is Some {
                        let rest = chain(v, *up, left as nat).unwrap();
                        assert(sites_at(v, before) + (seq![here] + rest) =~= sites_at(v, path@) + rest);
                    }
                }
                id = *up;
            },
            None => {
                assert(!parent@.contains_key(id));
                assert(parent_id(v, id) is None);
                assert(sites_at(v, before) + seq![here] =~= sites_at(v, path@));
                return Some(path);
            },
        }
    }
}

/// The nodes at the given positions.
spec fn sites_at(nodes: Seq<CpuNodeView>, path: Seq<usize>) -> Seq<Site> {
    Seq::new(
        path.len(),
        |i: int| Site { id: nodes[path[i] as int].id, frame: nodes[path[i] as int].call_frame },
    )
}

/// Whether every node of a stack has a location.
spec fn sites_known(nodes: Seq<i64>, sites: Seq<Site>) -> bool {
    forall|j: int| 0 <= j < sites.len() ==> nodes.contains((#[trigger] sites[j]).id)
}

/// Ids given out early stay right when the tables grow.
proof fn lemma_site_ids_stable(a: Seq<i64>, b: Seq<i64>, sites: Seq<Site>)
    requires
        extends(a, b),
        b.no_duplicates(),
        sites_known(a, sites),
    ensures
        site_ids(a, sites) == site_ids(b, sites),
        sites_known(b, sites),
{
    assert forall|j: int| 0 <= j < sites.len() implies b.contains((#[trigger] sites[j]).id) && place(a, sites[j].id)
        == place(b, sites[j].id) by {
        law_place_kept(a, b, sites[j].id);
    }
    assert(site_ids(a, sites) =~= site_ids(b, sites));
}

/// Enters the nodes at the given positions, and gives their location ids.
fn enter_path<D: Demangler>(state: &mut SiteTables, nodes: &Vec<CpuNode>, path: &Vec<usize>, d: &D) -> (ids: Vec<u64>)
    requires
        old(state).wf(),
        forall|i: int| 0 <= i < path@.len() ==> #[trigger] path@[i] < nodes@.len(),
    ensures
        final(state).wf(),
        final(state)@ == sites_entered(old(state)@, sites_at(node_views(nodes@), path@), *d),
        ids@ == site_ids(final(state)@.nodes, sites_at(node_views(nodes@), path@)),
        sites_known(final(state)@.nodes, sites_at(node_views(nodes@), path@)),
        extends(old(state)@.nodes, final(state)@.nodes),
        extends(old(state)@.tables.strings, final(state)@.tables.strings),
{
    let ghost v = node_views(nodes@);
    let ghost sites = sites_at(v, path@);
    let ghost s0 = state@;
    let mut ids: Vec<u64> = Vec::new();
    assert(s0.nodes.take(s0.nodes.len() as int) =~= s0.nodes);
    assert(s0.tables.strings.take(s0.tables.strings.len() as int) =~= s0.tables.strings);
    for j in 0..path.len()
        invariant
            v == node_views(nodes@),
            sites == sites_at(v, path@),
            forall|i: int| 0 <= i < path@.len() ==> #[trigger] path@[i] < nodes@.len(),
            state.wf(),
            state@ == sites_entered(s0, sites.take(j as int), *d),
            ids@ == site_ids(state@.nodes, sites.take(j as int)),
            sites_known(state@.nodes, sites.take(j as int)),
            extends(s0.nodes, state@.nodes),
            extends(s0.tables.strings, state@.tables.strings),
    {
        let ghost before = state@;
        let ghost done = sites.take(j as int);
        let ghost next = sites.take(j + 1);
        let k: usize = path[j];
        let id: u64 = state.intern_location(nodes[k].id, &nodes[k].call_frame, d);
        ids.push(id);
        proof {
            assert(next.drop_last() =~= done);
            assert(next.last() == sites[j as int]);
            state.lemma_ok();
            lemma_extends_trans(s0.nodes, before.nodes, state@.nodes);
            lemma_extends_trans(s0.tables.strings, before.tables.strings, state@.tables.strings);
            lemma_site_ids_stable(before.nodes, state@.nodes, done);
            assert forall|x: int| 0 <= x < next.len() implies state@.nodes.contains((#[trigger] next[x]).id) by {
                if x < j {
                    assert(state@.nodes.contains(done[x].id));
                }
            }
            assert(ids@ =~= site_ids(state@.nodes, next));
        }
    }
    assert(sites.take(sites.len() as int) =~= sites);
    ids
}

/// The microseconds before each sample, gathered by leaf, and their sum.
fn gather(profile: &CpuProfile) -> (r: (NodeTally, i128))
    ensures
        r.0.wf(),
        r.0.seen() == profile@.samples,
        r.0.weights() == deltas(profile@),
        r.1 == total(deltas(profile@)),
        -0x8000_0000_0000_0000_0000_0000_0000_0000 < r.1 < 0x7fff_ffff_ffff_ffff_ffff_ffff_ffff_ffff,
{
    let ghost p = profile@;
    let ghost w = deltas(p);
    let mut tally = NodeTally::new();
    let mut sum: i128 = 0;
    assert(p.samples.take(0) =~= Seq::<i64>::empty());
    assert(w.take(0) =~= Seq::<i64>::empty());
    for i in 0..profile.samples.len()
        invariant
            p == profile@,
            w == deltas(p),
            tally.wf(),
            tally.seen() == p.samples.take(i as int),
            tally.weights() == w.take(i as int),
            sum == total(w.take(i as int)),
            -(i * 0x8000_0000_0000_0000) <= sum <= i * 0x8000_0000_0000_0000,
    {
        let dt: i64 = if i < profile.time_deltas.len() {
            profile.time_deltas[i]
        } else {
            0
        };
        proof {
            assert(p.samples.take(i + 1) =~= p.samples.take(i as int).push(p.samples[i as int]));
            assert(w.take(i + 1) =~= w.take(i as int).push(w[i as int]));
            assert(w.take(i + 1).drop_last() =~= w.take(i as int));
            assert(i * 0x8000_0000_0000_0000 < 0x7fff_ffff_ffff_ffff_ffff_ffff_ffff_ffff - 0x8000_0000_0000_0000)
                by (nonlinear_arith)
                requires
                    i < 0xffff_ffff_ffff_ffff,
            ;
        }
        tally.add(profile.samples[i], dt);
        sum = sum + dt as i128;
    }
    assert(p.samples.take(p.samples.len() as int) =~= p.samples);
    assert(w.take(w.len() as int) =~= w);
    (tally, sum)
}

/// The distinct leaves with their counts and microseconds, and the mean period. `None`
/// where a number does not fit in 64 bits.
fn leaf_values(profile: &CpuProfile) -> (r: Option<(Vec<i64>, Vec<(i64, i64)>, i64)>)
    ensures
        match r {
            Some((leaves, values, period)) => {
                &&& values_fit(profile@)
                &&& leaves@ == first_seen(profile@.samples)
                &&& values@ == tally_values(profile@.samples, deltas(profile@))
                &&& period == mean_period(profile@)
            },
            None => !values_fit(profile@),
        },
{
    let ghost p = profile@;
    let n: usize = profile.samples.len();
    let (tally, sum) = gather(profile);
    if !fits_i64(sum) {
        return None;
    }
    let mut period: i64 = 1;
    if n > 0 {
        let ns: i128 = round_mean(sum as i64, n as u64) as i128 * 1000;
        if !fits_i64(ns) {
            return None;
        }
        if ns >= 1 {
            period = ns as i64;
        }
    }
    let (leaves, values, _) = match tally.finish() {
        Some(x) => x,
        None => {
            return None;
        },
    };
    for i in 0..values.len()
        invariant
            p == profile@,
            leaves@ == first_seen(p.samples),
            values@ == tally_values(p.samples, deltas(p)),
            tally_fits(p.samples, deltas(p)),
            forall|j: int|
                0 <= j < i ==> is_i64(sum_of(p.samples, deltas(p), #[trigger] first_seen(p.samples)[j]) * 1000),
    {
        assert(is_i64(sum_of(p.samples, deltas(p), first_seen(p.samples)[i as int])));
        if !fits_i64(values[i].1 as i128 * 1000) {
            return None;
        }
    }
    Some((leaves, values, period))
}

/// One sample per leaf. `None` where the way up from a leaf never ends.
fn leaf_samples<D: Demangler>(
    profile: &CpuProfile,
    leaves: &Vec<i64>,
    values: &Vec<(i64, i64)>,
    state: &mut SiteTables,
    d: &D,
) -> (r: Option<Vec<Sample>>)
    requires
        old(state).wf(),
        values_fit(profile@),
        leaves@ == first_seen(profile@.samples),
        values@ == tally_values(profile@.samples, deltas(profile@)),
    ensures
        match r {
            Some(out) => {
                &&& acyclic(profile@)
                &&& final(state).wf()
                &&& final(state)@ == leaves_entered(old(state)@, profile@.nodes, leaves@, *d)
                &&& extends(old(state)@.tables.strings, final(state)@.tables.strings)
                &&& sample_views(out@) == Seq::new(
                    leaves@.len(),
                    |i: int| leaf_sample(profile@, final(state)@.nodes, i),
                )
                &&& forall|i: int, j: int|
                    0 <= i < out@.len() && 0 <= j < out@[i].location_id@.len() ==> 1
                        <= #[trigger] out@[i].location_id@[j] <= final(state)@.nodes.len()
                &&& forall|i: int| 0 <= i < out@.len() ==> (#[trigger] out@[i]).value@.len() == 2
            },
            None => !acyclic(profile@),
        },
{
    let ghost p = profile@;
    let ghost start = state@;
    let by_id = index_nodes(&profile.nodes);
    let parent = index_parents(&profile.nodes);
    let mut sample: Vec<Sample> = Vec::new();
    assert(leaves@.take(0) =~= Seq::<i64>::empty());
    assert(start.tables.strings.take(start.tables.strings.len() as int) =~= start.tables.strings);
    for i in 0..leaves.len()
        invariant
            p == profile@,
            leaves@ == first_seen(p.samples),
            values@ == tally_values(p.samples, deltas(p)),
            values_fit(p),
            indexes_nodes(by_id@, p.nodes),
            indexes_parents(parent@, p.nodes),
            state.wf(),
            state@ == leaves_entered(start, p.nodes, leaves@.take(i as int), *d),
            extends(start.tables.strings, state@.tables.strings),
            forall|k: int| 0 <= k < i ==> leaf_stack(p.nodes, #[trigger] leaves@[k]) is Some,
            forall|k: int|
                0 <= k < i ==> sites_known(state@.nodes, leaf_stack(p.nodes, #[trigger] leaves@[k]).unwrap()),
            sample@.len() == i,
            forall|k: int| 0 <= k < i ==> (#[trigger] sample@[k])@ == leaf_sample(p, state@.nodes, k),
    {
        let leaf: i64 = leaves[i];
        let path = match stack_for_node(&profile.nodes, &by_id, &parent, leaf) {
            Some(x) => x,
            None => {
                assert(leaf_stack(p.nodes, first_seen(p.samples)[i as int]) is None);
                return None;
            },
        };
        let ghost before = state@;
        let ids = enter_path(state, &profile.nodes, &path, d);
        proof {
            assert(leaves@.take(i + 1).drop_last() =~= leaves@.take(i as int));
            state.lemma_ok();
            lemma_extends_trans(start.tables.strings, before.tables.strings, state@.tables.strings);
            assert(is_i64(sum_of(p.samples, deltas(p), first_seen(p.samples)[i as int])));
            assert(is_i64(sum_of(p.samples, deltas(p), first_seen(p.samples)[i as int]) * 1000));
            assert forall|k: int| 0 <= k < i implies sites_known(
                state@.nodes,
                leaf_stack(p.nodes, #[trigger] leaves@[k]).unwrap(),
            ) && leaf_sample(p, before.nodes, k) == leaf_sample(p, state@.nodes, k) by {
                lemma_site_ids_stable(before.nodes, state@.nodes, leaf_stack(p.nodes, leaves@[k]).unwrap());
            }
        }
        let value = (values[i].0, values[i].1 * 1000);
        let ghost done = sample@;
        sample.push(counted_sample(ids, value));
        assert forall|k: int| 0 <= k < i + 1 implies (#[trigger] sample@[k])@ == leaf_sample(p, state@.nodes, k) by {
            if k < i {
                assert(sample@[k] == done[k]);
                assert(leaves@[k] == leaves@[k]);
            }
        }
    }
    proof {
        assert(leaves@.take(leaves@.len() as int) =~= leaves@);
        state.lemma_ok();
        assert(sample_views(sample@) =~= Seq::new(leaves@.len(), |i: int| leaf_sample(p, state@.nodes, i)));
        assert forall|i: int, j: int|
            0 <= i < sample@.len() && 0 <= j < sample@[i].location_id@.len() implies 1
            <= #[trigger] sample@[i].location_id@[j] <= state@.nodes.len() by {
            let sites = leaf_stack(p.nodes, leaves@[i]).unwrap();
            assert(sample@[i]@ == leaf_sample(p, state@.nodes, i));
            assert(state@.nodes.contains(sites[j].id));
        }
        assert forall|i: int| 0 <= i < sample@.len() implies (#[trigger] sample@[i]).value@.len() == 2 by {
            assert(sample@[i]@ == leaf_sample(p, state@.nodes, i));
        }
    }
    Some(sample)
}

impl<D: Demangler> Builder<D> {
    /// Uses another demangler.
    pub fn demangle_with<E: Demangler>(self, demangler: E) -> (r: Builder<E>)
        ensures
            r.profile == self.profile,
            r.demangler == demangler,
            r.mapping == self.mapping,
    {
        Builder { profile: self.profile, demangler, mapping: self.mapping }
    }

    /// Names the file of the profile's mapping.
    pub fn mapping_filename(self, s: &str) -> (r: Self)
        ensures
            r.profile == self.profile,
            r.demangler == self.demangler,
            mapping_text(r.mapping) == s@,
    {
        Builder { profile: self.profile, demangler: self.demangler, mapping: Some(s.to_owned()) }
    }

    /// Builds the pprof profile.
    pub fn build(self) -> (r: Result<(Profile, Stats), BuildError>)
        ensures
            match r {
                Ok((out, stats)) => {
                    &&& values_fit(self.profile@)
                    &&& acyclic(self.profile@)
                    &&& out@ == cpu_profile(self.profile@, mapping_text(self.mapping), self.demangler)
                    &&& profile_ok(out@)
                    &&& stats == stats_of(out@)
                },
                Err(BuildError::Overflow) => !values_fit(self.profile@),
                Err(BuildError::Cycle) => values_fit(self.profile@) && !acyclic(self.profile@),
                Err(BuildError::Compress) => false,
            },
    {
        let profile = self.profile;
        let d = self.demangler;
        let ghost p = profile@;
        let ghost map_text = mapping_text(self.mapping);
        let mapping_name: String = match self.mapping {
            Some(s) => s,
            None => String::new(),
        };
        assert(mapping_name@ =~= map_text);
        let (mut state, fixed) = SiteTables::new("samples", "count", "cpu", "nanoseconds", mapping_name.as_str());
        let ghost start = state@;
        let (leaves, values, period) = match leaf_values(&profile) {
            Some(x) => x,
            None => {
                return Err(BuildError::Overflow);
            },
        };
        let sample = match leaf_samples(&profile, &leaves, &values, &mut state, &d) {
            Some(x) => x,
            None => {
                return Err(BuildError::Cycle);
            },
        };
        let stats = Stats {
            samples: sample.len(),
            functions: state.function_count(),
            locations: state.location_count(),
        };
        let ghost s = state@;
        let (string_table, function, location) = state.into_tables().into_parts();
        proof {
            lemma_fixed_kept(start.tables.strings, s.tables.strings, "samples"@, "count"@, "cpu"@, "nanoseconds"@, map_text);
        }
        let mut mapping: Vec<Mapping> = Vec::new();
        mapping.push(one_mapping(fixed.mapping));
        let out = Profile {
            sample_type: fixed.types,
            sample,
            mapping,
            location,
            function,
            string_table,
            drop_frames: 0,
            keep_frames: 0,
            time_nanos: saturating_product(profile.start_time, 1000),
            duration_nanos: saturating_product(
                clamp(profile.end_time as i128 - profile.start_time as i128),
                1000,
            ),
            period_type: Some(fixed.default_type),
            period,
            comment: Vec::new(),
            default_sample_type: 0,
            doc_url: 0,
        };
        assert(out@ =~= cpu_profile(p, map_text, d));
        Ok((out, stats))
    }

    /// Builds the pprof profile and compresses it.
    pub fn encode(self) -> (r: Result<EncodedProfile, BuildError>)
        ensures
            ({
                let p = self.profile@;
                let out = cpu_profile(p, mapping_text(self.mapping), self.demangler);
                match r {
                    Ok(e) => {
                        &&& values_fit(p)
                        &&& acyclic(p)
                        &&& gzipped(profile_bytes(out)) == Some(e.encoded@)
                        &&& loaded(e.encoded@) == Ok::<ProfileView, LoadError>(out)
                        &&& e.stats == stats_of(out)
                    },
                    Err(BuildError::Overflow) => !values_fit(p),
                    Err(BuildError::Cycle) => values_fit(p) && !acyclic(p),
                    Err(BuildError::Compress) => values_fit(p) && acyclic(p) && gzipped(profile_bytes(out)) is None,
                }
            }),
    {
        match self.build() {
            Ok((out, stats)) => match compress_profile(&out) {
                Ok(encoded) => Ok(EncodedProfile { encoded, stats }),
                Err(_) => Err(BuildError::Compress),
            },
            Err(e) => Err(e),
        }
    }
}

/// The counts of a profile.
pub open spec fn stats_of(p: ProfileView) -> Stats {
    Stats {
        samples: p.sample.len() as usize,
        functions: p.function.len() as usize,
        locations: p.location.len() as usize,
    }
}

/// The pprof profile loses no sample and no time: the counts add up to the number of
/// samples, and the nanoseconds to a thousand times the microseconds between them.
pub proof fn law_cpu_totals<D: Demangler>(p: CpuProfileView, mapping: Seq<char>, d: D)
    requires
        values_fit(p),
    ensures
        sum(Seq::new(
            cpu_profile(p, mapping, d).sample.len(),
            |i: int| cpu_profile(p, mapping, d).sample[i].value[0] as int,
        )) == p.samples.len(),
        sum(Seq::new(
            cpu_profile(p, mapping, d).sample.len(),
            |i: int| cpu_profile(p, mapping, d).sample[i].value[1] as int,
        )) == total(deltas(p)) * 1000,
{
    let out = cpu_profile(p, mapping, d);
    let s = p.samples;
    let w = deltas(p);
    let keys = first_seen(s);
    law_totals_kept(s, w);
    let counts = Seq::new(keys.len(), |i: int| count_of(s, keys[i]));
    let sums = Seq::new(keys.len(), |i: int| sum_of(s, w, keys[i]));
    assert(counts =~= Seq::new(first_seen(s).len(), |i: int| count_of(s, first_seen(s)[i])));
    assert(sums =~= Seq::new(first_seen(s).len(), |i: int| sum_of(s, w, first_seen(s)[i])));
    lemma_sum_scaled(sums, 1000);
    assert forall|i: int| 0 <= i < keys.len() implies out.sample[i].value[0] == counts[i]
        && #[trigger] out.sample[i].value[1] == sums[i] * 1000 by {
        lemma_count_nonnegative(s, first_seen(s)[i]);
        assert(count_of(s, first_seen(s)[i]) <= i64::MAX);
        assert(is_i64(sum_of(s, w, first_seen(s)[i]) * 1000));
    }
    assert(Seq::new(out.sample.len(), |i: int| out.sample[i].value[0] as int) =~= counts);
    assert(Seq::new(out.sample.len(), |i: int| out.sample[i].value[1] as int) =~= Seq::new(
        sums.len(),
        |i: int| sums[i] * 1000,
    ));
}

} // verus!

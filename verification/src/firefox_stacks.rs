//! What the profile of a Firefox profile says of each stack that was sampled.
use vstd::prelude::*;
use crate::demangle::Demangler;
use crate::firefox::{
    canonical, chain, counts_of, firefox_ok, function_key, functions_entered, is_located, kept,
    law_location_entered, law_same_content, leaf_error, leaf_names, leaves_entered, leaves_error,
    location_entered, location_ids, stack_entered, stack_known, stacks_of, thread_error, thread_kept,
    thread_samples, threads_entered, threads_error, threads_samples, times_of, FirefoxTables,
};
use crate::firefox_model::{FirefoxProfile, Thread};
use crate::firefox_profile::{firefox_profile, profile_tables, start_state};
use crate::leads::{file_of, lemma_function_texts, line_leads_to, name_of, system_of, texts_kept};
use crate::pool::{
    extends, law_entered, law_pair_key_injective, law_place_kept, lemma_extends_trans, lemma_position,
    pair_key, place,
};
use crate::proto::{ProfileView, SampleView};
use crate::resolver::{FrameResolver, ResolvedFrameView, SampleResolver};
use crate::tables::{lemma_with_function, tables_ok, TablesView};
use crate::tally::{first_seen, lemma_first_seen, sum_of, tally_fits};

verus! {

/// Whether stacks lead from one up to a root, each followed by its prefix.
pub open spec fn is_climb(t: Thread, leaf: i64, way: Seq<i64>) -> bool {
    let prefix = t.stack_table.prefix@;
    &&& way.len() > 0
    &&& way[0] == leaf
    &&& forall|i: int| 0 <= i < way.len() ==> 0 <= #[trigger] way[i] < t.stack_table.frame@.len()
    &&& forall|i: int|
        0 <= i < way.len() - 1 ==> #[trigger] way[i] < prefix.len() && prefix[way[i] as int] == Some(way[i + 1])
    &&& way.last() < prefix.len() ==> prefix[way.last() as int] is None
}

/// Whether a location shows frames: it has a line for each, in their order, with the frame's
/// demangled name, its file and its line. It is at the first frame's address, in its module,
/// and in the first module where that one is unknown.
pub open spec fn location_shows<D: Demangler>(
    out: ProfileView,
    id: u64,
    fs: Seq<ResolvedFrameView>,
    d: D,
) -> bool {
    let l = out.location[id - 1];
    &&& 1 <= id <= out.location.len()
    &&& l.id == id
    &&& l.line.len() == fs.len()
    &&& forall|j: int|
        0 <= j < fs.len() ==> (#[trigger] l.line[j]).line == fs[j].line && line_leads_to(
            out,
            l.line[j],
            d.pretty(fs[j].name),
            fs[j].file,
        )
    &&& fs.len() > 0 ==> l.address == fs[0].address
    &&& fs.len() > 0 && fs[0].mapping_index < out.mapping.len() ==> l.mapping_id == fs[0].mapping_index + 1
    &&& fs.len() > 0 && fs[0].mapping_index >= out.mapping.len() ==> l.mapping_id == 1
}

/// The counts of the first `n` samples of a thread with a stack.
pub open spec fn counts_taken<S: SampleResolver>(s: S, p: FirefoxProfile, t: Thread, n: nat, stack: i64) -> int
    decreases n,
{
    if n == 0 {
        0
    } else {
        let one = s.weighed(p, t, (n - 1) as usize);
        counts_taken(s, p, t, (n - 1) as nat, stack) + if one.stack == Some(stack) {
            one.count as int
        } else {
            0
        }
    }
}

/// The nanoseconds of the first `n` samples of a thread with a stack.
pub open spec fn nanos_taken<S: SampleResolver>(s: S, p: FirefoxProfile, t: Thread, n: nat, stack: i64) -> int
    decreases n,
{
    if n == 0 {
        0
    } else {
        let one = s.weighed(p, t, (n - 1) as usize);
        nanos_taken(s, p, t, (n - 1) as nat, stack) + if one.stack == Some(stack) {
            one.ns as int
        } else {
            0
        }
    }
}

/// Whether a sample is that of a stack of a thread: its locations show the frames from the top
/// one down to the root's, and it has the counts and times of the thread's samples with that
/// stack.
pub open spec fn sample_on_climb<F: FrameResolver, S: SampleResolver, D: Demangler>(
    out: ProfileView,
    got: SampleView,
    p: FirefoxProfile,
    f: F,
    s: S,
    d: D,
    t: Thread,
    way: Seq<i64>,
) -> bool {
    &&& got.location_id.len() == way.len()
    &&& forall|i: int|
        0 <= i < way.len() ==> location_shows(
            out,
            #[trigger] got.location_id[i],
            f.names(p, t, t.stack_table.frame@[way[i] as int]),
            d,
        )
    &&& got.value.len() == 2
    &&& got.value[0] == counts_taken(s, p, t, t.samples.length as nat, way[0])
    &&& got.value[1] == nanos_taken(s, p, t, t.samples.length as nat, way[0])
}

proof fn lemma_climb(t: Thread, leaf: i64, limit: nat) -> (way: Seq<i64>)
    requires
        chain(t.stack_table.frame@, t.stack_table.prefix@, leaf, limit) is Ok,
    ensures
        is_climb(t, leaf, way),
        chain(t.stack_table.frame@, t.stack_table.prefix@, leaf, limit)->Ok_0 == Seq::new(
            way.len(),
            |i: int| t.stack_table.frame@[way[i] as int],
        ),
    decreases limit,
{
    let frame = t.stack_table.frame@;
    let prefix = t.stack_table.prefix@;
    match crate::resolver::flat_entry(prefix, leaf) {
        None => {
            let way = seq![leaf];
            assert(chain(frame, prefix, leaf, limit)->Ok_0 =~= Seq::new(way.len(), |i: int| frame[way[i] as int]));
            way
        },
        Some(up) => {
            let rest = lemma_climb(t, up, (limit - 1) as nat);
            let way = seq![leaf] + rest;
            assert(way.last() == rest.last());
            assert forall|i: int| 0 <= i < way.len() implies 0 <= #[trigger] way[i] < frame.len() by {
                if i > 0 {
                    assert(way[i] == rest[i - 1]);
                }
            }
            assert forall|i: int| 0 <= i < way.len() - 1 implies #[trigger] way[i] < prefix.len()
                && prefix[way[i] as int] == Some(way[i + 1]) by {
                if i > 0 {
                    assert(way[i] == rest[i - 1]);
                    assert(way[i + 1] == rest[i - 1 + 1]);
                } else {
                    assert(way[1] == rest[0]);
                }
            }
            assert(chain(frame, prefix, leaf, limit)->Ok_0 =~= Seq::new(way.len(), |i: int| frame[way[i] as int]));
            way
        },
    }
}

spec fn function_fine<D: Demangler>(t: TablesView, i: int, d: D) -> bool {
    &&& t.keys[i] == pair_key(system_of(t, i), file_of(t, i))
    &&& name_of(t, i) == d.pretty(system_of(t, i))
}

spec fn functions_fine<D: Demangler>(t: TablesView, d: D) -> bool {
    &&& tables_ok(t)
    &&& forall|i: int| 0 <= i < t.functions.len() ==> #[trigger] function_fine(t, i, d)
}

proof fn lemma_functions_fine<D: Demangler>(t: TablesView, fs: Seq<ResolvedFrameView>, d: D)
    requires
        functions_fine(t, d),
        functions_entered(t, fs, d).functions.len() <= u64::MAX,
        functions_entered(t, fs, d).strings.len() <= i64::MAX,
    ensures
        functions_fine(functions_entered(t, fs, d), d),
        t.functions.len() <= functions_entered(t, fs, d).functions.len(),
        t.strings.len() <= functions_entered(t, fs, d).strings.len(),
    decreases fs.len(),
{
    if fs.len() > 0 {
        let r = functions_entered(t, fs.drop_last(), d);
        let u = functions_entered(t, fs, d);
        let f = fs.last();
        let n = r.functions.len() as int;
        lemma_function_lens(r, f, d);
        lemma_functions_fine(t, fs.drop_last(), d);
        if r.keys.contains(function_key(f)) {
            assert(u == r);
        } else {
            lemma_function_texts(r, function_key(f), d.pretty(f.name), f.name, f.file, 0);
            lemma_with_function(r, function_key(f), d.pretty(f.name), f.name, f.file, 0);
            assert forall|i: int| 0 <= i < u.functions.len() implies #[trigger] function_fine(u, i, d) by {
                if i < n {
                    assert(function_fine(r, i, d));
                    assert(texts_kept(r, u, i));
                    assert(u.keys[i] == r.keys[i]);
                } else {
                    assert(u.keys[n] == function_key(f));
                }
            }
        }
    }
}

proof fn lemma_function_lens<D: Demangler>(r: TablesView, f: ResolvedFrameView, d: D)
    ensures
        ({
            let u = crate::tables::with_function(r, function_key(f), d.pretty(f.name), f.name, f.file, 0);
            r.functions.len() <= u.functions.len() && r.strings.len() <= u.strings.len()
        }),
{
}

proof fn lemma_functions_lens<D: Demangler>(t: TablesView, fs: Seq<ResolvedFrameView>, d: D)
    ensures
        t.functions.len() <= functions_entered(t, fs, d).functions.len(),
        t.strings.len() <= functions_entered(t, fs, d).strings.len(),
    decreases fs.len(),
{
    if fs.len() > 0 {
        lemma_functions_lens(t, fs.drop_last(), d);
        lemma_function_lens(functions_entered(t, fs.drop_last(), d), fs.last(), d);
    }
}

/// Whether the location of frames is as they say.
spec fn placed(s: FirefoxTables, fs: Seq<ResolvedFrameView>) -> bool {
    let l = s.tables.locations[place(s.keys, canonical(fs)) - 1];
    &&& is_located(s, fs)
    &&& fs.len() > 0 ==> l.address == fs[0].address
    &&& fs.len() > 0 && fs[0].mapping_index < s.mappings ==> l.mapping_id == fs[0].mapping_index + 1
    &&& fs.len() > 0 && fs[0].mapping_index >= s.mappings ==> l.mapping_id == 1
}

spec fn all_placed<D: Demangler>(s: FirefoxTables, d: D) -> bool {
    &&& firefox_ok(s)
    &&& s.keys.len() <= u64::MAX
    &&& s.tables.strings.len() <= i64::MAX ==> functions_fine(s.tables, d)
    &&& s.tables.strings.len() <= i64::MAX ==> crate::firefox::functions_named(s.tables)
    &&& forall|fs: Seq<ResolvedFrameView>| s.keys.contains(#[trigger] canonical(fs)) ==> placed(s, fs)
}

proof fn lemma_location<D: Demangler>(s: FirefoxTables, fs: Seq<ResolvedFrameView>, d: D)
    requires
        all_placed(s, d),
        location_entered(s, fs, d).tables.functions.len() <= u64::MAX,
        location_entered(s, fs, d).tables.strings.len() <= i64::MAX,
        location_entered(s, fs, d).keys.len() <= u64::MAX,
    ensures
        all_placed(location_entered(s, fs, d), d),
        extends(s.keys, location_entered(s, fs, d).keys),
        location_entered(s, fs, d).keys.contains(canonical(fs)),
{
    let r = location_entered(s, fs, d);
    let key = canonical(fs);
    law_entered(s.keys, key);
    if !s.keys.contains(key) {
        let t = functions_entered(s.tables, fs, d);
        lemma_functions_lens(s.tables, fs, d);
        lemma_functions_fine(s.tables, fs, d);
        crate::firefox::lemma_functions_entered(s.tables, fs, d);
        crate::firefox::lemma_location_fine(s, fs, d);
        law_location_entered(s, fs, fs, d);
        let n = s.keys.len() as int;
        assert(r.keys[n] == key);
        lemma_position(r.keys, n);
        assert(r.tables.strings == t.strings && r.tables.functions == t.functions && r.tables.keys == t.keys);
        assert(functions_fine(r.tables, d)) by {
            assert forall|i: int| 0 <= i < r.tables.functions.len() implies #[trigger] function_fine(r.tables, i, d) by {
                assert(function_fine(t, i, d));
            }
        }
        assert forall|other: Seq<ResolvedFrameView>| r.keys.contains(#[trigger] canonical(other)) implies placed(
            r,
            other,
        ) by {
            if canonical(other) == key {
                law_same_content(other, fs);
            } else {
                let k = r.keys.index_of(canonical(other));
                assert(r.keys[k] == canonical(other));
                assert(s.keys[k] == canonical(other));
                assert(s.keys.contains(canonical(other)));
                assert(placed(s, other));
                law_location_entered(s, fs, other, d);
                law_place_kept(s.keys, r.keys, canonical(other));
                let m = s.keys.index_of(canonical(other));
                assert(0 <= m < s.keys.len());
                assert(r.tables.locations[m] == s.tables.locations[m]);
            }
        }
    }
}

pub(crate) proof fn lemma_location_lens<D: Demangler>(s: FirefoxTables, fs: Seq<ResolvedFrameView>, d: D)
    ensures
        s.tables.functions.len() <= location_entered(s, fs, d).tables.functions.len(),
        s.tables.strings.len() <= location_entered(s, fs, d).tables.strings.len(),
        s.keys.len() <= location_entered(s, fs, d).keys.len(),
        location_entered(s, fs, d).mappings == s.mappings,
{
    lemma_functions_lens(s.tables, fs, d);
}

pub(crate) proof fn lemma_stack_lens<D: Demangler>(s: FirefoxTables, stack: Seq<Seq<ResolvedFrameView>>, d: D)
    ensures
        s.tables.functions.len() <= stack_entered(s, stack, d).tables.functions.len(),
        s.tables.strings.len() <= stack_entered(s, stack, d).tables.strings.len(),
        s.keys.len() <= stack_entered(s, stack, d).keys.len(),
        stack_entered(s, stack, d).mappings == s.mappings,
    decreases stack.len(),
{
    if stack.len() > 0 {
        lemma_stack_lens(s, stack.drop_last(), d);
        lemma_location_lens(stack_entered(s, stack.drop_last(), d), stack.last(), d);
    }
}

proof fn lemma_known_kept(a: Seq<Seq<char>>, b: Seq<Seq<char>>, stack: Seq<Seq<ResolvedFrameView>>)
    requires
        extends(a, b),
        b.no_duplicates(),
        stack_known(a, stack),
    ensures
        stack_known(b, stack),
{
    crate::firefox::lemma_ids_stable(a, b, stack);
}

proof fn lemma_stack<D: Demangler>(s: FirefoxTables, stack: Seq<Seq<ResolvedFrameView>>, d: D)
    requires
        all_placed(s, d),
        stack_entered(s, stack, d).tables.functions.len() <= u64::MAX,
        stack_entered(s, stack, d).tables.strings.len() <= i64::MAX,
        stack_entered(s, stack, d).keys.len() <= u64::MAX,
    ensures
        all_placed(stack_entered(s, stack, d), d),
        extends(s.keys, stack_entered(s, stack, d).keys),
        stack_known(stack_entered(s, stack, d).keys, stack),
    decreases stack.len(),
{
    if stack.len() == 0 {
        assert(s.keys.take(s.keys.len() as int) =~= s.keys);
    } else {
        let front = stack.drop_last();
        let r = stack_entered(s, front, d);
        let q = stack_entered(s, stack, d);
        lemma_location_lens(r, stack.last(), d);
        lemma_stack(s, front, d);
        lemma_location(r, stack.last(), d);
        lemma_extends_trans(s.keys, r.keys, q.keys);
        lemma_known_kept(r.keys, q.keys, front);
        assert forall|j: int| 0 <= j < stack.len() implies q.keys.contains(canonical(#[trigger] stack[j])) by {
            if j < front.len() {
                assert(q.keys.contains(canonical(front[j])));
            }
        }
    }
}

pub(crate) proof fn lemma_leaves_lens<F: FrameResolver, D: Demangler>(
    s0: FirefoxTables,
    f: F,
    p: FirefoxProfile,
    t: Thread,
    leaves: Seq<i64>,
    d: D,
)
    ensures
        s0.tables.functions.len() <= leaves_entered(s0, f, p, t, leaves, d).tables.functions.len(),
        s0.tables.strings.len() <= leaves_entered(s0, f, p, t, leaves, d).tables.strings.len(),
        s0.keys.len() <= leaves_entered(s0, f, p, t, leaves, d).keys.len(),
        leaves_entered(s0, f, p, t, leaves, d).mappings == s0.mappings,
    decreases leaves.len(),
{
    if leaves.len() > 0 {
        lemma_leaves_lens(s0, f, p, t, leaves.drop_last(), d);
        lemma_stack_lens(leaves_entered(s0, f, p, t, leaves.drop_last(), d), leaf_names(f, p, t, leaves.last()), d);
    }
}

proof fn lemma_leaves<F: FrameResolver, D: Demangler>(
    s0: FirefoxTables,
    f: F,
    p: FirefoxProfile,
    t: Thread,
    leaves: Seq<i64>,
    d: D,
)
    requires
        all_placed(s0, d),
        leaves_entered(s0, f, p, t, leaves, d).tables.functions.len() <= u64::MAX,
        leaves_entered(s0, f, p, t, leaves, d).tables.strings.len() <= i64::MAX,
        leaves_entered(s0, f, p, t, leaves, d).keys.len() <= u64::MAX,
    ensures
        all_placed(leaves_entered(s0, f, p, t, leaves, d), d),
        extends(s0.keys, leaves_entered(s0, f, p, t, leaves, d).keys),
        forall|i: int|
            0 <= i < leaves.len() ==> stack_known(
                leaves_entered(s0, f, p, t, leaves, d).keys,
                leaf_names(f, p, t, #[trigger] leaves[i]),
            ),
    decreases leaves.len(),
{
    if leaves.len() == 0 {
        assert(s0.keys.take(s0.keys.len() as int) =~= s0.keys);
    } else {
        let front = leaves.drop_last();
        let r = leaves_entered(s0, f, p, t, front, d);
        let q = leaves_entered(s0, f, p, t, leaves, d);
        let names = leaf_names(f, p, t, leaves.last());
        lemma_stack_lens(r, names, d);
        lemma_leaves(s0, f, p, t, front, d);
        lemma_stack(r, names, d);
        lemma_extends_trans(s0.keys, r.keys, q.keys);
        assert forall|i: int| 0 <= i < leaves.len() implies stack_known(
            q.keys,
            leaf_names(f, p, t, #[trigger] leaves[i]),
        ) by {
            if i < front.len() {
                assert(stack_known(r.keys, leaf_names(f, p, t, front[i])));
                lemma_known_kept(r.keys, q.keys, leaf_names(f, p, t, leaves[i]));
            }
        }
    }
}

spec fn thread_stacks_known<F: FrameResolver, S: SampleResolver>(
    keys: Seq<Seq<char>>,
    f: F,
    s: S,
    p: FirefoxProfile,
    t: Thread,
) -> bool {
    forall|leaf: i64|
        first_seen(stacks_of(thread_kept(s, p, t))).contains(leaf) ==> stack_known(
            keys,
            #[trigger] leaf_names(f, p, t, leaf),
        )
}

proof fn lemma_threads<F: FrameResolver, S: SampleResolver, D: Demangler>(
    s0: FirefoxTables,
    f: F,
    s: S,
    p: FirefoxProfile,
    threads: Seq<Thread>,
    d: D,
)
    requires
        all_placed(s0, d),
        threads_entered(s0, f, s, p, threads, d).tables.functions.len() <= u64::MAX,
        threads_entered(s0, f, s, p, threads, d).tables.strings.len() <= i64::MAX,
        threads_entered(s0, f, s, p, threads, d).keys.len() <= u64::MAX,
    ensures
        all_placed(threads_entered(s0, f, s, p, threads, d), d),
        threads_entered(s0, f, s, p, threads, d).mappings == s0.mappings,
        forall|k: int|
            0 <= k < threads.len() ==> thread_stacks_known(
                threads_entered(s0, f, s, p, threads, d).keys,
                f,
                s,
                p,
                #[trigger] threads[k],
            ),
    decreases threads.len(),
{
    if threads.len() > 0 {
        let front = threads.drop_last();
        let t = threads.last();
        let r = threads_entered(s0, f, s, p, front, d);
        let q = threads_entered(s0, f, s, p, threads, d);
        let leaves = first_seen(stacks_of(thread_kept(s, p, t)));
        lemma_leaves_lens(r, f, p, t, leaves, d);
        lemma_threads(s0, f, s, p, front, d);
        lemma_leaves(r, f, p, t, leaves, d);
        assert forall|k: int| 0 <= k < threads.len() implies thread_stacks_known(
            q.keys,
            f,
            s,
            p,
            #[trigger] threads[k],
        ) by {
            let u = threads[k];
            assert forall|leaf: i64| first_seen(stacks_of(thread_kept(s, p, u))).contains(leaf) implies stack_known(
                q.keys,
                #[trigger] leaf_names(f, p, u, leaf),
            ) by {
                if k < front.len() {
                    assert(thread_stacks_known(r.keys, f, s, p, front[k]));
                    lemma_known_kept(r.keys, q.keys, leaf_names(f, p, u, leaf));
                } else {
                    let i = leaves.index_of(leaf);
                    assert(leaves[i] == leaf);
                }
            }
        }
    }
}

proof fn lemma_no_error<F: FrameResolver, S: SampleResolver>(f: F, s: S, p: FirefoxProfile, threads: Seq<Thread>)
    requires
        threads_error(f, s, p, threads) is None,
    ensures
        forall|k: int| 0 <= k < threads.len() ==> thread_error(f, s, p, #[trigger] threads[k]) is None,
    decreases threads.len(),
{
    if threads.len() > 0 {
        let front = threads.drop_last();
        lemma_no_error(f, s, p, front);
        assert forall|k: int| 0 <= k < threads.len() implies thread_error(f, s, p, #[trigger] threads[k]) is None by {
            if k < front.len() {
                assert(threads[k] == front[k]);
            }
        }
    }
}

proof fn lemma_no_leaf_error<F: FrameResolver>(f: F, p: FirefoxProfile, t: Thread, leaves: Seq<i64>, leaf: i64)
    requires
        leaves_error(f, p, t, leaves) is None,
        leaves.contains(leaf),
    ensures
        leaf_error(f, p, t, leaf) is None,
    decreases leaves.len(),
{
    let i = leaves.index_of(leaf);
    assert(leaves[i] == leaf);
    if i < leaves.len() - 1 {
        assert(leaves.drop_last()[i] == leaf);
        lemma_no_leaf_error(f, p, t, leaves.drop_last(), leaf);
    }
}

proof fn lemma_taken<S: SampleResolver>(s: S, p: FirefoxProfile, t: Thread, n: nat, stack: i64)
    ensures
        ({
            let v = kept(s, p, t, n);
            &&& sum_of(stacks_of(v), counts_of(v), stack) == counts_taken(s, p, t, n, stack)
            &&& sum_of(stacks_of(v), times_of(v), stack) == nanos_taken(s, p, t, n, stack)
        }),
    decreases n,
{
    if n > 0 {
        let before = kept(s, p, t, (n - 1) as nat);
        let v = kept(s, p, t, n);
        lemma_taken(s, p, t, (n - 1) as nat, stack);
        if s.weighed(p, t, (n - 1) as usize).stack is Some {
            assert(stacks_of(v).drop_last() =~= stacks_of(before));
            assert(counts_of(v).drop_last() =~= counts_of(before));
            assert(times_of(v).drop_last() =~= times_of(before));
        }
    }
}

proof fn lemma_kept_has<S: SampleResolver>(s: S, p: FirefoxProfile, t: Thread, n: nat, i: usize)
    requires
        i < n,
        s.weighed(p, t, i).stack is Some,
    ensures
        stacks_of(kept(s, p, t, n)).contains(s.weighed(p, t, i).stack.unwrap()),
    decreases n,
{
    let v = kept(s, p, t, n);
    let x = s.weighed(p, t, i).stack.unwrap();
    if i == n - 1 {
        assert(stacks_of(v)[v.len() - 1] == x);
    } else {
        let before = kept(s, p, t, (n - 1) as nat);
        lemma_kept_has(s, p, t, (n - 1) as nat, i);
        let k = stacks_of(before).index_of(x);
        assert(stacks_of(before)[k] == x);
        assert(stacks_of(v)[k] == x);
    }
}

proof fn lemma_among<F: FrameResolver, S: SampleResolver>(
    keys: Seq<Seq<char>>,
    f: F,
    s: S,
    p: FirefoxProfile,
    threads: Seq<Thread>,
    k: int,
    m: int,
) -> (j: int)
    requires
        0 <= k < threads.len(),
        0 <= m < thread_samples(keys, f, s, p, threads[k]).len(),
    ensures
        0 <= j < threads_samples(keys, f, s, p, threads).len(),
        threads_samples(keys, f, s, p, threads)[j] == thread_samples(keys, f, s, p, threads[k])[m],
    decreases threads.len(),
{
    let front = threads.drop_last();
    let a = threads_samples(keys, f, s, p, front);
    if k == threads.len() - 1 {
        a.len() + m
    } else {
        lemma_among(keys, f, s, p, front, k, m)
    }
}

proof fn lemma_location_shows<D: Demangler>(s: FirefoxTables, out: ProfileView, fs: Seq<ResolvedFrameView>, d: D)
    requires
        all_placed(s, d),
        s.tables.strings.len() <= i64::MAX,
        s.keys.contains(canonical(fs)),
        out.string_table == s.tables.strings,
        out.function == s.tables.functions,
        out.location == s.tables.locations,
        out.mapping.len() == s.mappings,
    ensures
        location_shows(out, place(s.keys, canonical(fs)), fs, d),
{
    let k = s.keys.index_of(canonical(fs));
    assert(0 <= k < s.keys.len() && s.keys[k] == canonical(fs));
    assert(placed(s, fs));
    let l = s.tables.locations[k];
    assert(l.id == k + 1);
    assert forall|j: int| 0 <= j < fs.len() implies (#[trigger] l.line[j]).line == fs[j].line && line_leads_to(
        out,
        l.line[j],
        d.pretty(fs[j].name),
        fs[j].file,
    ) by {
        let g = l.line[j].function_id - 1;
        assert(s.tables.keys[g] == function_key(fs[j]));
        assert(function_fine(s.tables, g, d));
        law_pair_key_injective(system_of(s.tables, g), file_of(s.tables, g), fs[j].name, fs[j].file);
        assert(s.tables.functions[g].id == g + 1);
    }
}

/// Each stack that a thread was sampled in has a sample, the top frame first.
pub proof fn law_thread_stack_kept<F: FrameResolver, S: SampleResolver, D: Demangler>(
    p: FirefoxProfile,
    f: F,
    s: S,
    d: D,
    mappings: Seq<Seq<char>>,
    k: int,
    i: usize,
)
    requires
        threads_error(f, s, p, p.threads@) is None,
        0 < mappings.len() <= usize::MAX,
        firefox_profile(p, f, s, d, mappings).function.len() <= u64::MAX,
        firefox_profile(p, f, s, d, mappings).string_table.len() <= i64::MAX,
        profile_tables(p, f, s, d, mappings).keys.len() <= u64::MAX,
        0 <= k < p.threads@.len(),
        i < p.threads@[k].samples.length,
        s.weighed(p, p.threads@[k], i).stack is Some,
    ensures
        exists|j: int, way: Seq<i64>|
            {
                &&& 0 <= j < firefox_profile(p, f, s, d, mappings).sample.len()
                &&& is_climb(p.threads@[k], s.weighed(p, p.threads@[k], i).stack.unwrap(), way)
                &&& #[trigger] sample_on_climb(
                    firefox_profile(p, f, s, d, mappings),
                    firefox_profile(p, f, s, d, mappings).sample[j],
                    p,
                    f,
                    s,
                    d,
                    p.threads@[k],
                    way,
                )
            },
{
    let out = firefox_profile(p, f, s, d, mappings);
    let q = profile_tables(p, f, s, d, mappings);
    let t = p.threads@[k];
    let leaf = s.weighed(p, t, i).stack.unwrap();
    let start = start_state(mappings);
    crate::firefox_profile::lemma_start_state(mappings);
    assert(all_placed(start, d));
    lemma_threads(start, f, s, p, p.threads@, d);
    lemma_no_error(f, s, p, p.threads@);
    let v = thread_kept(s, p, t);
    let leaves = first_seen(stacks_of(v));
    lemma_kept_has(s, p, t, t.samples.length as nat, i);
    lemma_first_seen(stacks_of(v));
    assert(leaves.contains(leaf));
    let m = leaves.index_of(leaf);
    assert(leaves[m] == leaf);
    lemma_no_leaf_error(f, p, t, leaves, leaf);
    let way = lemma_climb(t, leaf, t.stack_table.frame@.len());
    let names = leaf_names(f, p, t, leaf);
    assert(thread_stacks_known(q.keys, f, s, p, p.threads@[k]));
    assert(stack_known(q.keys, leaf_names(f, p, t, leaf)));
    let j = lemma_among(q.keys, f, s, p, p.threads@, k, m);
    let got = out.sample[j];
    assert(got.location_id == location_ids(q.keys, names));
    assert forall|x: int| 0 <= x < way.len() implies location_shows(
        out,
        #[trigger] got.location_id[x],
        f.names(p, t, t.stack_table.frame@[way[x] as int]),
        d,
    ) by {
        assert(names[x] == f.names(p, t, t.stack_table.frame@[way[x] as int]));
        assert(q.keys.contains(canonical(names[x])));
        lemma_location_shows(q, out, names[x], d);
    }
    lemma_taken(s, p, t, t.samples.length as nat, leaf);
    assert(tally_fits(stacks_of(v), counts_of(v)) && tally_fits(stacks_of(v), times_of(v)));
    assert(sum_of(stacks_of(v), counts_of(v), first_seen(stacks_of(v))[m]) <= i64::MAX);
    assert(sum_of(stacks_of(v), times_of(v), first_seen(stacks_of(v))[m]) <= i64::MAX);
    assert(sample_on_climb(out, out.sample[j], p, f, s, d, t, way));
}

} // verus!

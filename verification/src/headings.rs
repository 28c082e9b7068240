//! What the profiles of each kind say that their values are.
use vstd::prelude::*;
use vstd::arithmetic::div_mod::lemma_fundamental_div_mod_converse;
use vstd::arithmetic::power2::{lemma_pow2_pos, lemma_pow2_unfold, pow2};
use crate::alloc_profile::alloc_profile;
use crate::alloc_stacks::lemma_strings_grow;
use crate::cpuprofile::{cpu_profile, cpu_tables, leaf_stack, leaves_entered, CpuNodeView, CpuProfileView};
use crate::demangle::Demangler;
use crate::double::lemma_53_exact;
use crate::firefox::{
    canonical, firefox_ok, functions_named, law_location_entered, leaf_names, lemma_functions_entered,
    lemma_location_fine, location_entered, stacks_of, thread_kept, threads_entered, FirefoxTables,
};
use crate::firefox_model::{FirefoxProfile, Thread};
use crate::firefox_profile::{firefox_profile, lemma_start_state, profile_tables, start_state};
use crate::firefox_stacks::{lemma_leaves_lens, lemma_location_lens, lemma_stack_lens};
use crate::float::nearest_of;
use crate::folded::{folded_profile, plain_stacks, stack_values, FoldedImportOptions, FoldedStackView};
use crate::frames::NamedFrameView;
use crate::heapprofile::{heap_profile, heap_tables, sites_of, visits, HeapProfile};
use crate::leads::says;
use crate::mean::{mean_i64, quotient_digits};
use crate::num::is_i64;
use crate::perf::{ConvertOptions, FrameView, SampleView};
use crate::perf_profile::{
    capture_profile, lemma_frame_entered, lemma_start, perf_ok, samples_entered, stack_entered,
    start_tables, PerfTables,
};
use crate::pool::{extends, lemma_extends_trans, text_id};
use crate::proto::{ProfileView, ValueType};
use crate::resolver::{FrameResolver, ResolvedFrameView, SampleResolver};
use crate::sited::lemma_sites_grow;
use crate::tables::{law_text_kept, lemma_start_tables};
use crate::tally::{first_seen, total};
use crate::v8::{lemma_sites_entered, sites_ok, start_sites, SiteTablesView};
use crate::weighings::{law_53_bits, law_rounding};

verus! {

/// Whether a value type has this name and this unit.
pub open spec fn is_type(p: ProfileView, t: ValueType, ty: Seq<char>, unit: Seq<char>) -> bool {
    says(p, t.ty, ty) && says(p, t.unit, unit)
}

/// Whether a profile has two values with these names and units, the second of which is that of
/// its period.
pub open spec fn has_types(p: ProfileView, ty0: Seq<char>, unit0: Seq<char>, ty1: Seq<char>, unit1: Seq<char>) -> bool {
    &&& p.sample_type.len() == 2
    &&& is_type(p, p.sample_type[0], ty0, unit0)
    &&& is_type(p, p.sample_type[1], ty1, unit1)
    &&& p.period_type matches Some(t) && is_type(p, t, ty1, unit1)
}

proof fn lemma_says(p: ProfileView, a: Seq<Seq<char>>, s: Seq<char>)
    requires
        extends(a, p.string_table),
        a.contains(s),
        p.string_table.no_duplicates(),
        p.string_table.len() <= i64::MAX,
    ensures
        says(p, text_id(p.string_table, s), s),
{
    law_text_kept(a, p.string_table, s);
    let i = p.string_table.index_of(s);
    assert(0 <= i < p.string_table.len() && p.string_table[i] == s);
}

proof fn lemma_leaves_grow<D: Demangler>(s: SiteTablesView, nodes: Seq<CpuNodeView>, leaves: Seq<i64>, d: D)
    requires
        sites_ok(s),
        leaves_entered(s, nodes, leaves, d).nodes.len() <= u64::MAX,
    ensures
        sites_ok(leaves_entered(s, nodes, leaves, d)),
        extends(s.tables.strings, leaves_entered(s, nodes, leaves, d).tables.strings),
    decreases leaves.len(),
{
    if leaves.len() == 0 {
        assert(s.tables.strings.take(s.tables.strings.len() as int) =~= s.tables.strings);
    } else {
        let r = leaves_entered(s, nodes, leaves.drop_last(), d);
        let sites = leaf_stack(nodes, leaves.last()).unwrap();
        lemma_sites_grow(r, sites, d);
        lemma_leaves_grow(s, nodes, leaves.drop_last(), d);
        lemma_sites_entered(r, sites, d);
        lemma_extends_trans(
            s.tables.strings,
            r.tables.strings,
            leaves_entered(s, nodes, leaves, d).tables.strings,
        );
    }
}

/// A CPU profile counts samples and nanoseconds of processor time, and its mapping has the
/// name that was given.
pub proof fn law_cpu_headings<D: Demangler>(p: CpuProfileView, mapping: Seq<char>, d: D)
    requires
        cpu_profile(p, mapping, d).string_table.len() <= i64::MAX,
        cpu_tables(p, mapping, d).nodes.len() <= u64::MAX,
    ensures
        has_types(cpu_profile(p, mapping, d), "samples"@, "count"@, "cpu"@, "nanoseconds"@),
        cpu_profile(p, mapping, d).mapping.len() == 1,
        cpu_profile(p, mapping, d).mapping[0].id == 1,
        says(cpu_profile(p, mapping, d), cpu_profile(p, mapping, d).mapping[0].filename, mapping),
{
    let out = cpu_profile(p, mapping, d);
    let start = start_sites("samples"@, "count"@, "cpu"@, "nanoseconds"@, mapping);
    lemma_start_tables("samples"@, "count"@, "cpu"@, "nanoseconds"@, mapping);
    lemma_leaves_grow(start, p.nodes, crate::tally::first_seen(p.samples), d);
    let a = start.tables.strings;
    lemma_says(out, a, "samples"@);
    lemma_says(out, a, "count"@);
    lemma_says(out, a, "cpu"@);
    lemma_says(out, a, "nanoseconds"@);
    lemma_says(out, a, mapping);
}

/// A heap profile counts objects and bytes that were allocated, and the bytes are shown first.
pub proof fn law_heap_headings<D: Demangler>(p: HeapProfile, mapping: Seq<char>, d: D)
    requires
        heap_profile(p, mapping, d).string_table.len() <= i64::MAX,
        heap_tables(p, mapping, d).nodes.len() <= u64::MAX,
    ensures
        has_types(heap_profile(p, mapping, d), "alloc_objects"@, "count"@, "alloc_space"@, "bytes"@),
        says(heap_profile(p, mapping, d), heap_profile(p, mapping, d).default_sample_type, "alloc_space"@),
        heap_profile(p, mapping, d).mapping.len() == 1,
        heap_profile(p, mapping, d).mapping[0].id == 1,
        says(heap_profile(p, mapping, d), heap_profile(p, mapping, d).mapping[0].filename, mapping),
{
    let out = heap_profile(p, mapping, d);
    let start = start_sites("alloc_objects"@, "count"@, "alloc_space"@, "bytes"@, mapping);
    lemma_start_tables("alloc_objects"@, "count"@, "alloc_space"@, "bytes"@, mapping);
    lemma_sites_entered(start, sites_of(visits(p.head.tree(), Seq::empty())), d);
    let a = start.tables.strings;
    lemma_says(out, a, "alloc_objects"@);
    lemma_says(out, a, "count"@);
    lemma_says(out, a, "alloc_space"@);
    lemma_says(out, a, "bytes"@);
    lemma_says(out, a, mapping);
}

/// The profile of recorded allocations counts objects and bytes, and the bytes are shown first.
pub proof fn law_alloc_headings(stacks: Seq<Seq<NamedFrameView>>, values: Seq<(i64, i64)>, dropped: Seq<char>)
    requires
        alloc_profile(stacks, values, dropped).string_table.len() <= i64::MAX,
        alloc_profile(stacks, values, dropped).function.len() <= u64::MAX,
    ensures
        has_types(alloc_profile(stacks, values, dropped), "alloc_objects"@, "count"@, "alloc_space"@, "bytes"@),
        says(
            alloc_profile(stacks, values, dropped),
            alloc_profile(stacks, values, dropped).default_sample_type,
            "alloc_space"@,
        ),
        says(alloc_profile(stacks, values, dropped), alloc_profile(stacks, values, dropped).drop_frames, dropped),
{
    let out = alloc_profile(stacks, values, dropped);
    let start = crate::tables::start_tables("alloc_objects"@, "count"@, "alloc_space"@, "bytes"@, dropped);
    lemma_start_tables("alloc_objects"@, "count"@, "alloc_space"@, "bytes"@, dropped);
    lemma_strings_grow(start, stacks);
    lemma_says(out, start.strings, "alloc_objects"@);
    lemma_says(out, start.strings, "count"@);
    lemma_says(out, start.strings, "alloc_space"@);
    lemma_says(out, start.strings, "bytes"@);
    lemma_says(out, start.strings, dropped);
}

/// An imported folded text counts samples and what was asked for, which is shown first.
pub proof fn law_folded_headings(x: Seq<FoldedStackView>, opts: FoldedImportOptions)
    requires
        folded_profile(x, opts).string_table.len() <= i64::MAX,
        folded_profile(x, opts).function.len() <= u64::MAX,
    ensures
        has_types(folded_profile(x, opts), "samples"@, "count"@, opts.sample_type@, opts.unit@),
        says(folded_profile(x, opts), folded_profile(x, opts).default_sample_type, opts.sample_type@),
        folded_profile(x, opts).mapping.len() == 1,
        says(folded_profile(x, opts), folded_profile(x, opts).mapping[0].filename, opts.mapping_filename@),
{
    let out = folded_profile(x, opts);
    let start = crate::tables::start_tables("samples"@, "count"@, opts.sample_type@, opts.unit@, opts.mapping_filename@);
    lemma_start_tables("samples"@, "count"@, opts.sample_type@, opts.unit@, opts.mapping_filename@);
    lemma_strings_grow(start, plain_stacks(x));
    lemma_says(out, start.strings, "samples"@);
    lemma_says(out, start.strings, "count"@);
    lemma_says(out, start.strings, opts.sample_type@);
    lemma_says(out, start.strings, opts.unit@);
    lemma_says(out, start.strings, opts.mapping_filename@);
}

proof fn lemma_perf_stack(s: PerfTables, stack: Seq<FrameView>, no_demangle: bool)
    requires
        perf_ok(s),
        stack_entered(s, stack, no_demangle).tables.functions.len() <= u64::MAX,
    ensures
        perf_ok(stack_entered(s, stack, no_demangle)),
        extends(s.tables.strings, stack_entered(s, stack, no_demangle).tables.strings),
        s.tables.functions.len() <= stack_entered(s, stack, no_demangle).tables.functions.len(),
    decreases stack.len(),
{
    if stack.len() == 0 {
        assert(s.tables.strings.take(s.tables.strings.len() as int) =~= s.tables.strings);
    } else {
        let r = stack_entered(s, stack.drop_last(), no_demangle);
        let q = stack_entered(s, stack, no_demangle);
        assert(r.tables.functions.len() <= q.tables.functions.len());
        lemma_perf_stack(s, stack.drop_last(), no_demangle);
        if r.tables.functions.len() < u64::MAX {
            lemma_frame_entered(r, stack.last(), no_demangle);
        } else {
            assert(q == r);
            assert(r.tables.strings.take(r.tables.strings.len() as int) =~= r.tables.strings);
        }
        lemma_extends_trans(s.tables.strings, r.tables.strings, q.tables.strings);
    }
}

proof fn lemma_stack_functions(s: PerfTables, stack: Seq<FrameView>, no_demangle: bool)
    ensures
        s.tables.functions.len() <= stack_entered(s, stack, no_demangle).tables.functions.len(),
    decreases stack.len(),
{
    if stack.len() > 0 {
        lemma_stack_functions(s, stack.drop_last(), no_demangle);
    }
}

proof fn lemma_perf_samples(s: PerfTables, samples: Seq<SampleView>, no_demangle: bool)
    requires
        perf_ok(s),
        samples_entered(s, samples, no_demangle).tables.functions.len() <= u64::MAX,
    ensures
        perf_ok(samples_entered(s, samples, no_demangle)),
        extends(s.tables.strings, samples_entered(s, samples, no_demangle).tables.strings),
    decreases samples.len(),
{
    if samples.len() == 0 {
        assert(s.tables.strings.take(s.tables.strings.len() as int) =~= s.tables.strings);
    } else {
        let r = samples_entered(s, samples.drop_last(), no_demangle);
        let q = samples_entered(s, samples, no_demangle);
        lemma_stack_functions(r, samples.last().stack, no_demangle);
        lemma_perf_samples(s, samples.drop_last(), no_demangle);
        lemma_perf_stack(r, samples.last().stack, no_demangle);
        lemma_extends_trans(s.tables.strings, r.tables.strings, q.tables.strings);
    }
}

/// The profile of a capture counts samples and what was asked for, which is shown first.
pub proof fn law_capture_headings(samples: Seq<SampleView>, opts: ConvertOptions)
    requires
        capture_profile(samples, opts).function.len() <= u64::MAX,
        capture_profile(samples, opts).string_table.len() <= i64::MAX,
    ensures
        has_types(capture_profile(samples, opts), "samples"@, "count"@, opts.event_type@, opts.event_unit@),
        says(capture_profile(samples, opts), capture_profile(samples, opts).default_sample_type, opts.event_type@),
{
    let out = capture_profile(samples, opts);
    let start = start_tables(opts.event_type@, opts.event_unit@);
    lemma_start(opts.event_type@, opts.event_unit@);
    lemma_perf_samples(start, samples, opts.no_demangle);
    let a = start.tables.strings;
    lemma_says(out, a, "samples"@);
    lemma_says(out, a, "count"@);
    lemma_says(out, a, opts.event_type@);
    lemma_says(out, a, opts.event_unit@);
}

proof fn lemma_located<D: Demangler>(s: FirefoxTables, fs: Seq<ResolvedFrameView>, d: D)
    requires
        firefox_ok(s),
        functions_named(s.tables),
        location_entered(s, fs, d).tables.functions.len() <= u64::MAX,
        location_entered(s, fs, d).keys.len() <= u64::MAX,
    ensures
        firefox_ok(location_entered(s, fs, d)),
        functions_named(location_entered(s, fs, d).tables),
        extends(s.tables.strings, location_entered(s, fs, d).tables.strings),
{
    if s.keys.contains(canonical(fs)) {
        assert(s.tables.strings.take(s.tables.strings.len() as int) =~= s.tables.strings);
    } else {
        lemma_functions_entered(s.tables, fs, d);
        lemma_location_fine(s, fs, d);
        law_location_entered(s, fs, fs, d);
    }
}

proof fn lemma_stack_located<D: Demangler>(s: FirefoxTables, stack: Seq<Seq<ResolvedFrameView>>, d: D)
    requires
        firefox_ok(s),
        functions_named(s.tables),
        crate::firefox::stack_entered(s, stack, d).tables.functions.len() <= u64::MAX,
        crate::firefox::stack_entered(s, stack, d).keys.len() <= u64::MAX,
    ensures
        firefox_ok(crate::firefox::stack_entered(s, stack, d)),
        functions_named(crate::firefox::stack_entered(s, stack, d).tables),
        extends(s.tables.strings, crate::firefox::stack_entered(s, stack, d).tables.strings),
    decreases stack.len(),
{
    if stack.len() == 0 {
        assert(s.tables.strings.take(s.tables.strings.len() as int) =~= s.tables.strings);
    } else {
        let r = crate::firefox::stack_entered(s, stack.drop_last(), d);
        lemma_location_lens(r, stack.last(), d);
        lemma_stack_located(s, stack.drop_last(), d);
        lemma_located(r, stack.last(), d);
        lemma_extends_trans(
            s.tables.strings,
            r.tables.strings,
            crate::firefox::stack_entered(s, stack, d).tables.strings,
        );
    }
}

proof fn lemma_leaves_located<F: FrameResolver, D: Demangler>(
    s: FirefoxTables,
    f: F,
    p: FirefoxProfile,
    t: Thread,
    leaves: Seq<i64>,
    d: D,
)
    requires
        firefox_ok(s),
        functions_named(s.tables),
        crate::firefox::leaves_entered(s, f, p, t, leaves, d).tables.functions.len() <= u64::MAX,
        crate::firefox::leaves_entered(s, f, p, t, leaves, d).keys.len() <= u64::MAX,
    ensures
        firefox_ok(crate::firefox::leaves_entered(s, f, p, t, leaves, d)),
        functions_named(crate::firefox::leaves_entered(s, f, p, t, leaves, d).tables),
        extends(s.tables.strings, crate::firefox::leaves_entered(s, f, p, t, leaves, d).tables.strings),
    decreases leaves.len(),
{
    if leaves.len() == 0 {
        assert(s.tables.strings.take(s.tables.strings.len() as int) =~= s.tables.strings);
    } else {
        let r = crate::firefox::leaves_entered(s, f, p, t, leaves.drop_last(), d);
        let names = leaf_names(f, p, t, leaves.last());
        lemma_stack_lens(r, names, d);
        lemma_leaves_located(s, f, p, t, leaves.drop_last(), d);
        lemma_stack_located(r, names, d);
        lemma_extends_trans(
            s.tables.strings,
            r.tables.strings,
            crate::firefox::leaves_entered(s, f, p, t, leaves, d).tables.strings,
        );
    }
}

proof fn lemma_threads_located<F: FrameResolver, S: SampleResolver, D: Demangler>(
    s0: FirefoxTables,
    f: F,
    s: S,
    p: FirefoxProfile,
    threads: Seq<Thread>,
    d: D,
)
    requires
        firefox_ok(s0),
        functions_named(s0.tables),
        threads_entered(s0, f, s, p, threads, d).tables.functions.len() <= u64::MAX,
        threads_entered(s0, f, s, p, threads, d).keys.len() <= u64::MAX,
    ensures
        firefox_ok(threads_entered(s0, f, s, p, threads, d)),
        functions_named(threads_entered(s0, f, s, p, threads, d).tables),
        extends(s0.tables.strings, threads_entered(s0, f, s, p, threads, d).tables.strings),
    decreases threads.len(),
{
    if threads.len() == 0 {
        assert(s0.tables.strings.take(s0.tables.strings.len() as int) =~= s0.tables.strings);
    } else {
        let r = threads_entered(s0, f, s, p, threads.drop_last(), d);
        let t = threads.last();
        let leaves = first_seen(stacks_of(thread_kept(s, p, t)));
        lemma_leaves_lens(r, f, p, t, leaves, d);
        lemma_threads_located(s0, f, s, p, threads.drop_last(), d);
        lemma_leaves_located(r, f, p, t, leaves, d);
        lemma_extends_trans(
            s0.tables.strings,
            r.tables.strings,
            threads_entered(s0, f, s, p, threads, d).tables.strings,
        );
    }
}

/// The profile of a Firefox profile counts samples and nanoseconds of processor time, and its
/// mappings have the names that were given, in their order.
pub proof fn law_firefox_headings<F: FrameResolver, S: SampleResolver, D: Demangler>(
    p: FirefoxProfile,
    f: F,
    s: S,
    d: D,
    mappings: Seq<Seq<char>>,
)
    requires
        0 < mappings.len() <= usize::MAX,
        mappings.len() < u64::MAX,
        firefox_profile(p, f, s, d, mappings).function.len() <= u64::MAX,
        firefox_profile(p, f, s, d, mappings).string_table.len() <= i64::MAX,
        profile_tables(p, f, s, d, mappings).keys.len() <= u64::MAX,
    ensures
        has_types(firefox_profile(p, f, s, d, mappings), "samples"@, "count"@, "cpu"@, "nanoseconds"@),
        firefox_profile(p, f, s, d, mappings).mapping.len() == mappings.len(),
        forall|i: int|
            0 <= i < mappings.len() ==> (#[trigger] firefox_profile(p, f, s, d, mappings).mapping[i]).id == i + 1
                && says(
                firefox_profile(p, f, s, d, mappings),
                firefox_profile(p, f, s, d, mappings).mapping[i].filename,
                mappings[i],
            ),
{
    let out = firefox_profile(p, f, s, d, mappings);
    let start = start_state(mappings);
    let fixed = crate::tables::start_tables("samples"@, "count"@, "cpu"@, "nanoseconds"@, mappings[0]);
    lemma_start_state(mappings);
    lemma_start_tables("samples"@, "count"@, "cpu"@, "nanoseconds"@, mappings[0]);
    lemma_threads_located(start, f, s, p, p.threads@, d);
    lemma_extends_trans(fixed.strings, start.tables.strings, out.string_table);
    lemma_says(out, fixed.strings, "samples"@);
    lemma_says(out, fixed.strings, "count"@);
    lemma_says(out, fixed.strings, "cpu"@);
    lemma_says(out, fixed.strings, "nanoseconds"@);
    assert forall|i: int| 0 <= i < mappings.len() implies (#[trigger] out.mapping[i]).id == i + 1 && says(
        out,
        out.mapping[i].filename,
        mappings[i],
    ) by {
        lemma_says(out, start.tables.strings, mappings[i]);
    }
}

/// Times in any unit are as many nanoseconds as there are in the unit, and what is no time has
/// no duration.
pub proof fn law_durations(x: Seq<FoldedStackView>, opts: FoldedImportOptions)
    ensures
        ({
            let sum = total(stack_values(x));
            let out = folded_profile(x, opts).duration_nanos;
            &&& opts.unit@ == "nanoseconds"@ && is_i64(sum) ==> out == sum
            &&& opts.unit@ == "microseconds"@ && is_i64(1000 * sum) ==> out == 1000 * sum
            &&& opts.unit@ == "milliseconds"@ && is_i64(1_000_000 * sum) ==> out == 1_000_000 * sum
            &&& opts.unit@ == "seconds"@ && is_i64(1_000_000_000 * sum) ==> out == 1_000_000_000 * sum
            &&& opts.unit@ == "bytes"@ || opts.unit@ == "count"@ ==> out == 0
        }),
{
    reveal_strlit("nanoseconds");
    reveal_strlit("microseconds");
    reveal_strlit("milliseconds");
    reveal_strlit("seconds");
    reveal_strlit("bytes");
    reveal_strlit("count");
    assert("nanoseconds"@[0] == 'n' && "seconds"@[0] == 's' && "bytes"@[0] == 'b' && "count"@[0] == 'c');
    assert("microseconds"@[2] == 'c' && "milliseconds"@[2] == 'l' && "microseconds"@[0] == 'm' && "milliseconds"@[0]
        == 'm');
}

/// The mean of equal times is that time, whatever its sign.
pub proof fn law_mean_of_equal_times(n: nat, k: nat)
    requires
        0 < n < 0x20_0000_0000_0000,
        n * k < 0x20_0000_0000_0000,
    ensures
        mean_i64((n * k) as int, n) == k,
        mean_i64(-((n * k) as int), n) == -(k as int),
{
    let t = n * k;
    assert(k <= t) by (nonlinear_arith)
        requires
            t == n * k,
            n >= 1,
    ;
    law_53_bits(t);
    law_53_bits(n);
    let p = pow2(118);
    let x = t * p;
    lemma_pow2_pos(118);
    lemma_pow2_unfold(119);
    assert(x == (k * p) * n) by (nonlinear_arith)
        requires
            t == n * k,
            x == t * p,
    ;
    lemma_fundamental_div_mod_converse(x as int, n as int, (k * p) as int, 0);
    assert(2 * (k * p) == k * pow2(119)) by (nonlinear_arith)
        requires
            pow2(119) == 2 * p,
    ;
    assert(quotient_digits(t, n) == k * pow2(119));
    lemma_53_exact(k, 119);
    law_rounding(k * pow2(119), 119);
    let near = nearest_of(k * pow2(119), -119) as int;
    let q = pow2(119);
    lemma_pow2_pos(119);
    assert(near == k) by (nonlinear_arith)
        requires
            2 * (near * q - k * q) <= q,
            2 * (k * q - near * q) < q,
            q >= 1,
    ;
    assert((-(-(t as int))) as nat == t);
    if t == 0 {
        assert(k == 0);
    }
}

} // verus!

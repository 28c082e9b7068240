//! What the profile of a capture says of each stack that perf printed.
use vstd::prelude::*;
use crate::demangle::demangled;
use crate::leads::{
    file_of, leads_to, lemma_extended_text, lemma_function_texts, lemma_text_entered, name_of, says,
    system_of, texts_kept,
};
use crate::perf::{ConvertOptions, FrameView, SampleView};
use crate::perf_profile::{
    capture_profile, capture_stacks, capture_tables, dso_entered, frame_entered, frame_key, kept_periods,
    kept_stacks, lemma_frame_entered, lemma_start, perf_ok, samples_entered, shown, stack_entered,
    stack_ids, start_tables, PerfTables,
};
use crate::pool::{
    extends, law_entered, law_pair_key_injective, law_place_kept, lemma_extends_trans, lemma_position,
    pair_key, place,
};
use crate::proto::ProfileView;
use crate::tables::{with_function, with_text};
use crate::tally::{count_of, first_seen, lemma_first_seen, sum_of, tally_fits};

verus! {

/// The name under which a frame is to be shown.
pub open spec fn name_for(symbol: Seq<char>, opts: ConvertOptions) -> Seq<char> {
    if !opts.no_demangle {
        demangled(symbol)
    } else {
        symbol
    }
}

/// Whether a location is that of a frame: its function has the frame's name and its binary,
/// which is also the file of its mapping.
pub open spec fn frame_at(p: ProfileView, id: u64, f: FrameView, opts: ConvertOptions) -> bool {
    &&& leads_to(p, id, name_for(f.symbol, opts), f.dso, 0)
    &&& 1 <= p.location[id - 1].mapping_id <= p.mapping.len()
    &&& p.mapping[p.location[id - 1].mapping_id - 1].id == p.location[id - 1].mapping_id
    &&& says(p, p.mapping[p.location[id - 1].mapping_id - 1].filename, f.dso)
}

/// Whether locations are those of a stack, frame by frame.
pub open spec fn stack_at(p: ProfileView, ids: Seq<u64>, stack: Seq<FrameView>, opts: ConvertOptions) -> bool {
    &&& ids.len() == stack.len()
    &&& forall|i: int| 0 <= i < stack.len() ==> frame_at(p, #[trigger] ids[i], stack[i], opts)
}

/// Whether two stacks show the same frames.
pub open spec fn alike(a: Seq<FrameView>, b: Seq<FrameView>, opts: ConvertOptions) -> bool {
    &&& a.len() == b.len()
    &&& forall|i: int|
        0 <= i < a.len() ==> name_for((#[trigger] a[i]).symbol, opts) == name_for(b[i].symbol, opts) && a[i].dso == b[i].dso
}

/// How many samples show a stack.
pub open spec fn times_taken(samples: Seq<SampleView>, stack: Seq<FrameView>, opts: ConvertOptions) -> int
    decreases samples.len(),
{
    if samples.len() == 0 {
        0
    } else if alike(samples.last().stack, stack, opts) {
        times_taken(samples.drop_last(), stack, opts) + 1
    } else {
        times_taken(samples.drop_last(), stack, opts)
    }
}

/// The periods of the samples that show a stack, together.
pub open spec fn periods_taken(samples: Seq<SampleView>, stack: Seq<FrameView>, opts: ConvertOptions) -> int
    decreases samples.len(),
{
    if samples.len() == 0 {
        0
    } else if alike(samples.last().stack, stack, opts) {
        periods_taken(samples.drop_last(), stack, opts) + (samples.last().period as i64)
    } else {
        periods_taken(samples.drop_last(), stack, opts)
    }
}

spec fn row_ok(s: PerfTables, i: int, no_demangle: bool) -> bool {
    let t = s.tables;
    &&& t.keys[i] == pair_key(name_of(t, i), file_of(t, i))
    &&& name_of(t, i) == shown(system_of(t, i), no_demangle)
    &&& t.locations[i].line.len() == 1
    &&& t.locations[i].line[0].function_id == i + 1
    &&& t.locations[i].line[0].line == 0
    &&& s.dsos[t.locations[i].mapping_id - 1] == file_of(t, i)
}

spec fn mapping_ok(s: PerfTables, i: int) -> bool {
    let f = s.mappings[i].filename;
    0 <= f < s.tables.strings.len() && s.tables.strings[f as int] == s.dsos[i]
}

spec fn rows_ok(s: PerfTables, no_demangle: bool) -> bool {
    &&& perf_ok(s)
    &&& forall|i: int| 0 <= i < s.tables.functions.len() ==> #[trigger] row_ok(s, i, no_demangle)
    &&& forall|i: int| 0 <= i < s.mappings.len() ==> #[trigger] mapping_ok(s, i)
}

proof fn lemma_frame_row(s: PerfTables, f: FrameView, no_demangle: bool)
    requires
        rows_ok(s, no_demangle),
        s.tables.functions.len() < u64::MAX,
        frame_entered(s, f, no_demangle).tables.strings.len() <= i64::MAX,
    ensures
        rows_ok(frame_entered(s, f, no_demangle), no_demangle),
{
    let key = frame_key(f, no_demangle);
    let r = frame_entered(s, f, no_demangle);
    lemma_frame_entered(s, f, no_demangle);
    if !s.tables.keys.contains(key) {
        let m = dso_entered(s, f.dso);
        let name = shown(f.symbol, no_demangle);
        let t = with_function(m.tables, key, name, f.symbol, f.dso, 0);
        let n = s.tables.functions.len() as int;
        law_entered(s.dsos, f.dso);
        law_entered(m.tables.strings, name);
        law_entered(crate::pool::entered(m.tables.strings, name), f.symbol);
        law_entered(crate::pool::entered(crate::pool::entered(m.tables.strings, name), f.symbol), f.dso);
        assert(m.tables.strings.len() <= t.strings.len());
        assert(r.tables.strings == t.strings);
        assert(r.tables.functions == t.functions);
        if s.dsos.contains(f.dso) {
            assert(m == s);
            assert forall|i: int| 0 <= i < n implies #[trigger] texts_kept(s.tables, m.tables, i) by {}
            assert(s.tables.strings.take(s.tables.strings.len() as int) =~= s.tables.strings);
        } else {
            lemma_text_entered(s.tables, f.dso);
            crate::tables::lemma_with_text(s.tables, f.dso);
            assert(with_text(s.tables, f.dso).strings == m.tables.strings);
        }
        lemma_function_texts(m.tables, key, name, f.symbol, f.dso, 0);
        crate::tables::lemma_function_grows(m.tables, key, name, f.symbol, f.dso, 0);
        crate::tables::lemma_with_function(m.tables, key, name, f.symbol, f.dso, 0);
        lemma_position(t.keys, n);
        assert(t.keys[n] == key);
        let at = m.dsos.index_of(f.dso);
        assert(m.dsos.contains(f.dso)) by {
            if !s.dsos.contains(f.dso) {
                assert(m.dsos[s.dsos.len() as int] == f.dso);
            }
        }
        assert(m.dsos[at] == f.dso && 0 <= at < m.dsos.len());
        assert forall|i: int| 0 <= i < r.tables.functions.len() implies #[trigger] row_ok(r, i, no_demangle) by {
            if i < n {
                assert(row_ok(s, i, no_demangle));
                assert(texts_kept(s.tables, m.tables, i));
                assert(texts_kept(m.tables, t, i));
                assert(t.keys[i] == s.tables.keys[i]);
                assert(r.tables.locations[i] == s.tables.locations[i]);
                assert(1 <= s.tables.locations[i].mapping_id <= s.mappings.len());
                assert(r.dsos[s.tables.locations[i].mapping_id - 1] == s.dsos[s.tables.locations[i].mapping_id - 1]);
            }
        }
        assert forall|i: int| 0 <= i < r.mappings.len() implies #[trigger] mapping_ok(r, i) by {
            if i < s.mappings.len() {
                assert(mapping_ok(s, i));
                assert(r.mappings[i] == s.mappings[i]);
                lemma_extended_text(s.tables.strings, r.tables.strings, s.mappings[i].filename as int);
            } else {
                lemma_extended_text(m.tables.strings, r.tables.strings, m.mappings[i].filename as int);
            }
        }
    }
}

spec fn stack_known(keys: Seq<Seq<char>>, stack: Seq<FrameView>, no_demangle: bool) -> bool {
    forall|j: int| 0 <= j < stack.len() ==> keys.contains(#[trigger] frame_key(stack[j], no_demangle))
}

proof fn lemma_stack_rows(s: PerfTables, stack: Seq<FrameView>, no_demangle: bool)
    requires
        rows_ok(s, no_demangle),
        stack_entered(s, stack, no_demangle).tables.functions.len() <= u64::MAX,
        stack_entered(s, stack, no_demangle).tables.strings.len() <= i64::MAX,
    ensures
        rows_ok(stack_entered(s, stack, no_demangle), no_demangle),
        extends(s.tables.strings, stack_entered(s, stack, no_demangle).tables.strings),
        extends(s.tables.keys, stack_entered(s, stack, no_demangle).tables.keys),
        stack_known(stack_entered(s, stack, no_demangle).tables.keys, stack, no_demangle),
    decreases stack.len(),
{
    if stack.len() == 0 {
        assert(s.tables.strings.take(s.tables.strings.len() as int) =~= s.tables.strings);
        assert(s.tables.keys.take(s.tables.keys.len() as int) =~= s.tables.keys);
    } else {
        let front = stack.drop_last();
        let r = stack_entered(s, front, no_demangle);
        let q = stack_entered(s, stack, no_demangle);
        let key = frame_key(stack.last(), no_demangle);
        lemma_grows(r, stack.last(), no_demangle);
        lemma_stack_rows(s, front, no_demangle);
        if r.tables.functions.len() < u64::MAX {
            lemma_frame_entered(r, stack.last(), no_demangle);
            lemma_frame_row(r, stack.last(), no_demangle);
            law_entered(r.tables.keys, key);
        } else {
            assert(q == r);
            assert(r.tables.strings.take(r.tables.strings.len() as int) =~= r.tables.strings);
            assert(r.tables.keys.take(r.tables.keys.len() as int) =~= r.tables.keys);
        }
        lemma_extends_trans(s.tables.strings, r.tables.strings, q.tables.strings);
        lemma_extends_trans(s.tables.keys, r.tables.keys, q.tables.keys);
        assert forall|j: int| 0 <= j < stack.len() implies q.tables.keys.contains(
            #[trigger] frame_key(stack[j], no_demangle),
        ) by {
            if j < front.len() {
                assert(r.tables.keys.contains(frame_key(front[j], no_demangle)));
                law_place_kept(r.tables.keys, q.tables.keys, frame_key(stack[j], no_demangle));
            }
        }
    }
}

/// Entering a frame takes nothing out of the tables.
proof fn lemma_grows(s: PerfTables, f: FrameView, no_demangle: bool)
    ensures
        s.tables.functions.len() <= frame_entered(s, f, no_demangle).tables.functions.len(),
        s.tables.strings.len() <= frame_entered(s, f, no_demangle).tables.strings.len(),
{
}

proof fn lemma_stack_grows(s: PerfTables, stack: Seq<FrameView>, no_demangle: bool)
    ensures
        s.tables.functions.len() <= stack_entered(s, stack, no_demangle).tables.functions.len(),
        s.tables.strings.len() <= stack_entered(s, stack, no_demangle).tables.strings.len(),
    decreases stack.len(),
{
    if stack.len() > 0 {
        lemma_stack_grows(s, stack.drop_last(), no_demangle);
        lemma_grows(stack_entered(s, stack.drop_last(), no_demangle), stack.last(), no_demangle);
    }
}

proof fn lemma_samples_rows(s: PerfTables, samples: Seq<SampleView>, no_demangle: bool)
    requires
        rows_ok(s, no_demangle),
        samples_entered(s, samples, no_demangle).tables.functions.len() <= u64::MAX,
        samples_entered(s, samples, no_demangle).tables.strings.len() <= i64::MAX,
    ensures
        rows_ok(samples_entered(s, samples, no_demangle), no_demangle),
        forall|i: int|
            0 <= i < samples.len() ==> stack_known(
                samples_entered(s, samples, no_demangle).tables.keys,
                (#[trigger] samples[i]).stack,
                no_demangle,
            ),
    decreases samples.len(),
{
    if samples.len() > 0 {
        let front = samples.drop_last();
        let r = samples_entered(s, front, no_demangle);
        let q = samples_entered(s, samples, no_demangle);
        lemma_stack_grows(r, samples.last().stack, no_demangle);
        lemma_samples_rows(s, front, no_demangle);
        lemma_stack_rows(r, samples.last().stack, no_demangle);
        assert forall|i: int| 0 <= i < samples.len() implies stack_known(
            q.tables.keys,
            (#[trigger] samples[i]).stack,
            no_demangle,
        ) by {
            if i < front.len() {
                let stack = front[i].stack;
                assert(stack_known(r.tables.keys, stack, no_demangle));
                assert forall|j: int| 0 <= j < stack.len() implies q.tables.keys.contains(
                    #[trigger] frame_key(stack[j], no_demangle),
                ) by {
                    law_place_kept(r.tables.keys, q.tables.keys, frame_key(stack[j], no_demangle));
                }
            }
        }
    }
}

proof fn lemma_capture(samples: Seq<SampleView>, opts: ConvertOptions)
    requires
        capture_profile(samples, opts).function.len() <= u64::MAX,
        capture_profile(samples, opts).string_table.len() <= i64::MAX,
    ensures
        ({
            let s = capture_tables(samples, opts.event_type@, opts.event_unit@, opts.no_demangle);
            &&& rows_ok(s, opts.no_demangle)
            &&& forall|i: int|
                0 <= i < samples.len() ==> stack_known(s.tables.keys, (#[trigger] samples[i]).stack, opts.no_demangle)
        }),
{
    let start = start_tables(opts.event_type@, opts.event_unit@);
    lemma_start(opts.event_type@, opts.event_unit@);
    assert(rows_ok(start, opts.no_demangle));
    lemma_samples_rows(start, samples, opts.no_demangle);
}

/// The location of a known key leads to the frame.
proof fn lemma_frame_at(samples: Seq<SampleView>, opts: ConvertOptions, f: FrameView)
    requires
        capture_profile(samples, opts).function.len() <= u64::MAX,
        capture_profile(samples, opts).string_table.len() <= i64::MAX,
        capture_tables(samples, opts.event_type@, opts.event_unit@, opts.no_demangle).tables.keys.contains(
            frame_key(f, opts.no_demangle),
        ),
    ensures
        frame_at(
            capture_profile(samples, opts),
            place(
                capture_tables(samples, opts.event_type@, opts.event_unit@, opts.no_demangle).tables.keys,
                frame_key(f, opts.no_demangle),
            ),
            f,
            opts,
        ),
{
    let s = capture_tables(samples, opts.event_type@, opts.event_unit@, opts.no_demangle);
    let t = s.tables;
    let key = frame_key(f, opts.no_demangle);
    lemma_capture(samples, opts);
    let i = t.keys.index_of(key);
    assert(0 <= i < t.keys.len() && t.keys[i] == key);
    lemma_position(t.keys, i);
    assert(row_ok(s, i, opts.no_demangle));
    law_pair_key_injective(name_of(t, i), file_of(t, i), shown(f.symbol, opts.no_demangle), f.dso);
    assert(t.functions[i].id == i + 1);
    assert(t.locations[i].id == i + 1);
    assert(t.locations[i].line[0].function_id <= t.functions.len());
    let m = t.locations[i].mapping_id - 1;
    assert(1 <= t.locations[i].mapping_id <= s.mappings.len());
    assert(mapping_ok(s, m));
    assert(s.mappings[m].id == m + 1);
}

proof fn lemma_stack_at(samples: Seq<SampleView>, opts: ConvertOptions, stack: Seq<FrameView>)
    requires
        capture_profile(samples, opts).function.len() <= u64::MAX,
        capture_profile(samples, opts).string_table.len() <= i64::MAX,
        stack_known(
            capture_tables(samples, opts.event_type@, opts.event_unit@, opts.no_demangle).tables.keys,
            stack,
            opts.no_demangle,
        ),
    ensures
        stack_at(
            capture_profile(samples, opts),
            stack_ids(
                capture_tables(samples, opts.event_type@, opts.event_unit@, opts.no_demangle).tables.keys,
                stack,
                opts.no_demangle,
            ),
            stack,
            opts,
        ),
{
    let p = capture_profile(samples, opts);
    let keys = capture_tables(samples, opts.event_type@, opts.event_unit@, opts.no_demangle).tables.keys;
    let ids = stack_ids(keys, stack, opts.no_demangle);
    assert forall|i: int| 0 <= i < stack.len() implies frame_at(p, #[trigger] ids[i], stack[i], opts) by {
        assert(keys.contains(frame_key(stack[i], opts.no_demangle)));
        lemma_frame_at(samples, opts, stack[i]);
    }
}

/// Stacks have the same ids where they show the same frames, and only there.
proof fn lemma_alike(
    keys: Seq<Seq<char>>,
    a: Seq<FrameView>,
    b: Seq<FrameView>,
    opts: ConvertOptions,
)
    requires
        keys.no_duplicates(),
        keys.len() <= u64::MAX,
        stack_known(keys, a, opts.no_demangle),
        stack_known(keys, b, opts.no_demangle),
    ensures
        alike(a, b, opts) <==> stack_ids(keys, a, opts.no_demangle) == stack_ids(keys, b, opts.no_demangle),
{
    let x = stack_ids(keys, a, opts.no_demangle);
    let y = stack_ids(keys, b, opts.no_demangle);
    if alike(a, b, opts) {
        assert forall|i: int| 0 <= i < x.len() implies x[i] == y[i] by {
            assert(name_for(a[i].symbol, opts) == name_for(b[i].symbol, opts));
        }
        assert(x =~= y);
    }
    if x == y {
        assert(x.len() == a.len() && y.len() == b.len());
        assert forall|i: int| 0 <= i < a.len() implies name_for((#[trigger] a[i]).symbol, opts) == name_for(
            b[i].symbol,
            opts,
        ) && a[i].dso == b[i].dso by {
            let k = frame_key(a[i], opts.no_demangle);
            let l = frame_key(b[i], opts.no_demangle);
            assert(keys.contains(k) && keys.contains(l));
            assert(x[i] == y[i]);
            assert(keys[keys.index_of(k)] == k && keys[keys.index_of(l)] == l);
            law_pair_key_injective(
                shown(a[i].symbol, opts.no_demangle),
                a[i].dso,
                shown(b[i].symbol, opts.no_demangle),
                b[i].dso,
            );
        }
    }
}

/// The kept stacks are those of the samples with one.
proof fn lemma_kept(
    keys: Seq<Seq<char>>,
    samples: Seq<SampleView>,
    opts: ConvertOptions,
    stack: Seq<FrameView>,
)
    requires
        keys.no_duplicates(),
        keys.len() <= u64::MAX,
        stack.len() > 0,
        stack_known(keys, stack, opts.no_demangle),
        forall|i: int| 0 <= i < samples.len() ==> stack_known(keys, (#[trigger] samples[i]).stack, opts.no_demangle),
    ensures
        ({
            let k = kept_stacks(keys, samples, opts.no_demangle);
            let ids = stack_ids(keys, stack, opts.no_demangle);
            &&& k.len() == kept_periods(samples).len()
            &&& count_of(k, ids) == times_taken(samples, stack, opts)
            &&& sum_of(k, kept_periods(samples), ids) == periods_taken(samples, stack, opts)
        }),
    decreases samples.len(),
{
    if samples.len() > 0 {
        let front = samples.drop_last();
        assert forall|i: int| 0 <= i < front.len() implies stack_known(
            keys,
            (#[trigger] front[i]).stack,
            opts.no_demangle,
        ) by {
            assert(stack_known(keys, samples[i].stack, opts.no_demangle));
        }
        lemma_kept(keys, front, opts, stack);
        assert(stack_known(keys, samples[samples.len() - 1].stack, opts.no_demangle));
        lemma_alike(keys, samples.last().stack, stack, opts);
        let k = kept_stacks(keys, front, opts.no_demangle);
        let last = stack_ids(keys, samples.last().stack, opts.no_demangle);
        if samples.last().stack.len() > 0 {
            assert(k.push(last).drop_last() =~= k);
            assert(kept_periods(front).push(samples.last().period as i64).drop_last() =~= kept_periods(front));
        }
    }
}

proof fn lemma_kept_contains(keys: Seq<Seq<char>>, samples: Seq<SampleView>, no_demangle: bool)
    ensures
        forall|i: int|
            0 <= i < samples.len() && (#[trigger] samples[i]).stack.len() > 0 ==> kept_stacks(keys, samples, no_demangle).contains(
                stack_ids(keys, samples[i].stack, no_demangle),
            ),
        forall|x: Seq<u64>| #[trigger]
            kept_stacks(keys, samples, no_demangle).contains(x) ==> exists|i: int|
                0 <= i < samples.len() && (#[trigger] samples[i]).stack.len() > 0 && x == stack_ids(
                    keys,
                    samples[i].stack,
                    no_demangle,
                ),
    decreases samples.len(),
{
    if samples.len() > 0 {
        let front = samples.drop_last();
        let k = kept_stacks(keys, front, no_demangle);
        let all = kept_stacks(keys, samples, no_demangle);
        lemma_kept_contains(keys, front, no_demangle);
        assert forall|i: int| 0 <= i < samples.len() && (#[trigger] samples[i]).stack.len() > 0 implies all.contains(
            stack_ids(keys, samples[i].stack, no_demangle),
        ) by {
            if i < front.len() {
                let x = stack_ids(keys, front[i].stack, no_demangle);
                assert(k.contains(x));
                let j = k.index_of(x);
                assert(all[j] == x);
            } else {
                assert(all[all.len() - 1] == stack_ids(keys, samples[i].stack, no_demangle));
            }
        }
        assert forall|x: Seq<u64>| #[trigger] all.contains(x) implies exists|i: int|
            0 <= i < samples.len() && (#[trigger] samples[i]).stack.len() > 0 && x == stack_ids(
                keys,
                samples[i].stack,
                no_demangle,
            ) by {
            let j = all.index_of(x);
            assert(all[j] == x);
            if j < k.len() {
                assert(k[j] == x);
                assert(k.contains(x));
                let i = choose|i: int|
                    0 <= i < front.len() && (#[trigger] front[i]).stack.len() > 0 && x == stack_ids(
                        keys,
                        front[i].stack,
                        no_demangle,
                    );
                assert(samples[i] == front[i]);
            } else {
                assert(samples[samples.len() - 1].stack.len() > 0);
            }
        }
    }
}

/// Whether a sample of the profile is that of a stack: location by location it leads to the
/// stack's frames, leaf first, and it counts the samples that show the stack, and their
/// periods.
pub open spec fn sample_of_stack(
    p: ProfileView,
    j: int,
    samples: Seq<SampleView>,
    stack: Seq<FrameView>,
    opts: ConvertOptions,
) -> bool {
    &&& stack_at(p, p.sample[j].location_id, stack, opts)
    &&& p.sample[j].value.len() == 2
    &&& p.sample[j].value[0] == times_taken(samples, stack, opts)
    &&& p.sample[j].value[1] == periods_taken(samples, stack, opts)
}

/// Each stack that was sampled has a sample in the profile.
pub proof fn law_stack_kept(samples: Seq<SampleView>, opts: ConvertOptions, k: int)
    requires
        tally_fits(capture_stacks(samples, opts), kept_periods(samples)),
        capture_profile(samples, opts).function.len() <= u64::MAX,
        capture_profile(samples, opts).string_table.len() <= i64::MAX,
        0 <= k < samples.len(),
        samples[k].stack.len() > 0,
    ensures
        exists|j: int|
            0 <= j < capture_profile(samples, opts).sample.len() && #[trigger] sample_of_stack(
                capture_profile(samples, opts),
                j,
                samples,
                samples[k].stack,
                opts,
            ),
{
    let s = capture_tables(samples, opts.event_type@, opts.event_unit@, opts.no_demangle);
    let keys = s.tables.keys;
    let stack = samples[k].stack;
    lemma_capture(samples, opts);
    lemma_kept_contains(keys, samples, opts.no_demangle);
    let all = capture_stacks(samples, opts);
    let ids = stack_ids(keys, stack, opts.no_demangle);
    assert(all.contains(ids));
    lemma_first_seen(all);
    assert(first_seen(all).contains(ids));
    let j = first_seen(all).index_of(ids);
    lemma_sample_of_stack(samples, opts, k, j);
}

proof fn lemma_sample_of_stack(samples: Seq<SampleView>, opts: ConvertOptions, k: int, j: int)
    requires
        tally_fits(capture_stacks(samples, opts), kept_periods(samples)),
        capture_profile(samples, opts).function.len() <= u64::MAX,
        capture_profile(samples, opts).string_table.len() <= i64::MAX,
        0 <= k < samples.len(),
        samples[k].stack.len() > 0,
        0 <= j < first_seen(capture_stacks(samples, opts)).len(),
        first_seen(capture_stacks(samples, opts))[j] == stack_ids(
            capture_tables(samples, opts.event_type@, opts.event_unit@, opts.no_demangle).tables.keys,
            samples[k].stack,
            opts.no_demangle,
        ),
    ensures
        j < capture_profile(samples, opts).sample.len(),
        sample_of_stack(capture_profile(samples, opts), j, samples, samples[k].stack, opts),
{
    let s = capture_tables(samples, opts.event_type@, opts.event_unit@, opts.no_demangle);
    let all = capture_stacks(samples, opts);
    lemma_capture(samples, opts);
    assert(stack_known(s.tables.keys, samples[k].stack, opts.no_demangle));
    lemma_stack_at(samples, opts, samples[k].stack);
    lemma_kept(s.tables.keys, samples, opts, samples[k].stack);
    crate::tally::lemma_count_nonnegative(all, first_seen(all)[j]);
}

/// Each sample of the profile is that of a stack that was sampled.
pub proof fn law_samples_are_stacks(samples: Seq<SampleView>, opts: ConvertOptions, j: int)
    requires
        tally_fits(capture_stacks(samples, opts), kept_periods(samples)),
        capture_profile(samples, opts).function.len() <= u64::MAX,
        capture_profile(samples, opts).string_table.len() <= i64::MAX,
        0 <= j < capture_profile(samples, opts).sample.len(),
    ensures
        exists|k: int|
            0 <= k < samples.len() && (#[trigger] samples[k]).stack.len() > 0 && sample_of_stack(
                capture_profile(samples, opts),
                j,
                samples,
                samples[k].stack,
                opts,
            ),
        forall|i: int|
            0 <= i < capture_profile(samples, opts).sample.len() && i != j ==> (#[trigger] capture_profile(
                samples,
                opts,
            ).sample[i]).location_id != capture_profile(samples, opts).sample[j].location_id,
{
    let keys = capture_tables(samples, opts.event_type@, opts.event_unit@, opts.no_demangle).tables.keys;
    let all = capture_stacks(samples, opts);
    lemma_first_seen(all);
    let ids = first_seen(all)[j];
    assert(first_seen(all).contains(ids));
    assert(all.contains(ids));
    lemma_kept_contains(keys, samples, opts.no_demangle);
    let k = choose|k: int|
        0 <= k < samples.len() && (#[trigger] samples[k]).stack.len() > 0 && ids == stack_ids(
            keys,
            samples[k].stack,
            opts.no_demangle,
        );
    lemma_sample_of_stack(samples, opts, k, j);
}

} // verus!

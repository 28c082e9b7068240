//! What small steps of the conversions come to.
use vstd::prelude::*;
use crate::cli::normalized;
use crate::codec::decoded;
use crate::cpuprofile::{mean_period, CpuProfileView};
use crate::double::{is_exactly, nearest_nanos};
use crate::firefox_model::{FirefoxProfile, Thread};
use crate::firefox_profile::{interval_ns, mapping_names, source_weighting, Source};
use crate::float::{is_one_or_more, is_positive, nearest_i64};
use crate::folded::{import_stats, line_entry, FoldedStackView, LineError};
use crate::guest::{default_delta, delta_weighting, DeltaWeighting};
use crate::gz::{gunzipped, loaded, LoadError};
use crate::json::{get, JsonView};
use crate::json_read::{field, ints_or_none};
use crate::native::starts;
use crate::num::clamped;
use crate::numbers::law_trimmed;
use crate::proto::{text_at, ProfileView};
use crate::relink::{ends, first_word, is_ascii_space, is_cc, link_tail, up_to_space};
use crate::resolve::FrameView;
use crate::resolver::{SampleResolver, SampleWeighting};
use crate::samply::{lib_with, LibSymsView};
use crate::speedscope::{speedscope_profile, value_type_of, SampledProfileView};
use crate::tally::total;
use crate::text::{is_space, trim, trim_end, trim_start};
use crate::trace_events::{
    chunk_json, embedded, event_data, event_time, ingested, int_member, profile_key, raw_nodes_json,
    ChunkView, EventView, StreamView,
};
use crate::trace_write::{end_us, start_us};

verus! {

/// An index of a string table means the string there, and one that is not there the empty one.
pub proof fn law_text_at(strings: Seq<Seq<char>>, i: i64)
    ensures
        0 <= i < strings.len() ==> text_at(strings, i) == strings[i as int],
        i < 0 || i >= strings.len() ==> text_at(strings, i).len() == 0,
{
}

/// A number is cut to 64 bits: none of those is nearer.
pub proof fn law_clamped(x: int, y: i64)
    ensures
        x <= clamped(x) ==> clamped(x) == x || clamped(x) <= y,
        x >= clamped(x) ==> clamped(x) == x || clamped(x) >= y,
        x == y ==> clamped(x) == y,
{
}

/// A file that starts with the two bytes of gzip is taken as compressed, and any other as it
/// is.
pub proof fn law_compressed_or_not(raw: Seq<u8>)
    ensures
        raw.len() < 2 || raw[0] != 31 || raw[1] != 139 ==> (decoded(raw) matches Some(p) ==> loaded(raw) == Ok::<
            ProfileView,
            LoadError,
        >(p)) && (decoded(raw) is None ==> loaded(raw) is Err),
        raw.len() >= 2 && raw[0] == 31 && raw[1] == 139 ==> (gunzipped(raw) is None ==> loaded(raw) is Err) && (gunzipped(
            raw,
        ) matches Some(b) ==> (decoded(b) matches Some(p) ==> loaded(raw) == Ok::<ProfileView, LoadError>(p))),
{
}

/// A trace starts when its profile does, in whole microseconds, and ends after its duration,
/// or after its samples where it has none.
pub proof fn law_trace_times(p: ProfileView, us: int)
    ensures
        p.time_nanos > 0 ==> 0 <= p.time_nanos - 1000 * start_us(p) < 1000,
        p.time_nanos <= 0 ==> start_us(p) == 0,
        p.duration_nanos > 0 && end_us(p, us) < i64::MAX ==> 0 <= p.duration_nanos - 1000 * (end_us(p, us) - start_us(p))
            < 1000,
        p.duration_nanos <= 0 && 0 <= us && end_us(p, us) < i64::MAX ==> end_us(p, us) - start_us(p) == us,
{
}

/// The symbols of a module are the last ones that go by its name.
pub proof fn law_module_symbols(data: Seq<LibSymsView>, name: Seq<char>)
    ensures
        match lib_with(data, name) {
            Some(k) => 0 <= k < data.len() && data[k].debug_name == name && forall|j: int|
                k < j < data.len() ==> (#[trigger] data[j]).debug_name != name,
            None => forall|j: int| 0 <= j < data.len() ==> (#[trigger] data[j]).debug_name != name,
        },
    decreases data.len(),
{
    if data.len() > 0 {
        let front = data.drop_last();
        law_module_symbols(front, name);
        if data.last().debug_name != name {
            assert forall|j: int|
                0 <= j < data.len() && (lib_with(data, name) is Some ==> lib_with(data, name).unwrap() < j) implies (
            #[trigger] data[j]).debug_name != name by {
                if j < front.len() {
                    assert(front[j] == data[j]);
                }
            }
        }
    }
}

/// Samples of native code are equally far apart, and those of a guest have their own times. The
/// interval is at least one millisecond.
pub proof fn law_source_weighting(p: FirefoxProfile, n: nat)
    ensures
        source_weighting(Source::Samply, p) matches SampleWeighting::FixedInterval { interval_ns: ns } && ns
            == interval_ns(p.meta.interval),
        source_weighting(Source::WasmtimeGuest, p) matches SampleWeighting::PerSampleTimeDeltas {
            default_interval_ns: ns,
        } && ns == interval_ns(p.meta.interval),
        !is_one_or_more(p.meta.interval.bits) ==> interval_ns(p.meta.interval) == 1_000_000,
        is_one_or_more(p.meta.interval.bits) && is_exactly(p.meta.interval.bits, n as int) && n * 1_000_000
            < 0x20_0000_0000_0000 ==> interval_ns(p.meta.interval) == 1_000_000 * n && default_delta(p.meta.interval)
            == 1_000_000 * n,
        !is_one_or_more(p.meta.interval.bits) ==> default_delta(p.meta.interval) == 1_000_000,
{
    let bits = p.meta.interval.bits;
    if is_one_or_more(bits) && is_exactly(bits, n as int) && n * 1_000_000 < 0x20_0000_0000_0000 {
        crate::weighings::law_whole_millis(bits, n);
    }
}

/// A recorded sample counts at least once, and takes its own time or the interval.
pub proof fn law_recorded_sample(w: DeltaWeighting, p: FirefoxProfile, t: Thread, i: usize)
    ensures
        w.weighed(p, t, i).count >= 1,
        i < t.samples.weight@.len() && nearest_i64(t.samples.weight@[i as int]) >= 1 ==> w.weighed(p, t, i).count
            == nearest_i64(t.samples.weight@[i as int]),
        i >= t.samples.weight@.len() ==> w.weighed(p, t, i).count == 1,
        i < t.samples.time_deltas@.len() ==> w.weighed(p, t, i).ns == nearest_nanos(
            t.samples.time_deltas@[i as int].bits,
        ),
        i >= t.samples.time_deltas@.len() ==> w.weighed(p, t, i).ns == w.interval_ns,
        i < t.samples.stack@.len() ==> w.weighed(p, t, i).stack == t.samples.stack@[i as int],
        i >= t.samples.stack@.len() ==> w.weighed(p, t, i).stack is None,
        is_positive(p.meta.interval.bits) ==> delta_weighting(p).interval_ns == nearest_nanos(p.meta.interval.bits),
        !is_positive(p.meta.interval.bits) ==> delta_weighting(p).interval_ns == 1_000_000,
{
}

/// The mappings are named after the modules, the first one by what is given.
pub proof fn law_mapping_names(p: FirefoxProfile, given: Option<String>, i: int)
    ensures
        p.libs@.len() > 0 ==> mapping_names(p, given).len() == p.libs@.len(),
        p.libs@.len() == 0 ==> mapping_names(p, given).len() == 1,
        0 < i < p.libs@.len() ==> mapping_names(p, given)[i] == p.libs@[i].name@,
        given matches Some(s) ==> mapping_names(p, given)[0] == s@,
        given is None && p.libs@.len() > 0 ==> mapping_names(p, given)[0] == p.libs@[0].name@,
        given is None && p.libs@.len() == 0 ==> mapping_names(p, given)[0] == "unknown"@,
{
}

/// The period of a CPU profile is the mean time between its samples in nanoseconds, and never
/// below 1.
pub proof fn law_period(p: CpuProfileView, k: nat)
    requires
        0 < p.samples.len() < 0x20_0000_0000_0000,
        total(crate::cpuprofile::deltas(p)) == p.samples.len() * k,
        p.samples.len() * k < 0x20_0000_0000_0000,
    ensures
        k > 0 ==> mean_period(p) == 1000 * k,
        k == 0 ==> mean_period(p) == 1,
{
    crate::headings::law_mean_of_equal_times(p.samples.len(), k);
}

/// What an imported unit measures: times are processor time in that unit, bytes are space, and
/// anything else counts samples. An exact end in a unit of time gives the duration.
pub proof fn law_imported_units(frames: Seq<FrameView>, p: SampledProfileView, mapping: Seq<char>, n: nat)
    ensures
        p.unit == "nanoseconds"@ || p.unit == "microseconds"@ || p.unit == "milliseconds"@ || p.unit == "seconds"@
            ==> value_type_of(p.unit) == ("cpu"@, p.unit),
        value_type_of("bytes"@) == ("space"@, "bytes"@),
        value_type_of("none"@) == ("samples"@, "count"@),
        p.unit == "nanoseconds"@ && is_exactly(p.end_value, n as int) && is_exactly(p.start_value, 0) && n <= i64::MAX
            ==> speedscope_profile(frames, p, mapping).duration_nanos == n,
        p.unit == "milliseconds"@ && is_exactly(p.end_value, n as int) && is_exactly(p.start_value, 0) && 1_000_000 * n
            <= i64::MAX ==> speedscope_profile(frames, p, mapping).duration_nanos == 1_000_000 * n,
{
    reveal_strlit("nanoseconds");
    reveal_strlit("microseconds");
    reveal_strlit("milliseconds");
    reveal_strlit("seconds");
    reveal_strlit("bytes");
    reveal_strlit("none");
    assert("nanoseconds"@[0] == 'n' && "seconds"@[0] == 's' && "bytes"@[0] == 'b' && "none"@[1] == 'o');
    assert("nanoseconds"@[1] == 'a' && "none"@.len() == 4);
    assert("microseconds"@[2] == 'c' && "milliseconds"@[2] == 'l' && "microseconds"@[0] == 'm' && "milliseconds"@[0]
        == 'm');
    if is_exactly(p.end_value, n as int) && is_exactly(p.start_value, 0) && n <= i64::MAX {
        crate::double::law_exact(p.end_value, p.start_value, n);
    }
}

proof fn lemma_up_to(w: Seq<char>, rest: Seq<char>)
    requires
        forall|i: int| 0 <= i < w.len() ==> !is_ascii_space(#[trigger] w[i]),
        rest.len() > 0 ==> is_ascii_space(rest[0]),
    ensures
        up_to_space(w + rest) == w,
    decreases w.len(),
{
    let s = w + rest;
    if w.len() == 0 {
        assert(s =~= rest);
        assert(w =~= Seq::empty());
    } else {
        let v = w.drop_first();
        assert(s[0] == w[0]);
        assert(!is_ascii_space(w[0]));
        assert(s.drop_first() =~= v + rest);
        assert forall|i: int| 0 <= i < v.len() implies !is_ascii_space(#[trigger] v[i]) by {
            assert(!is_ascii_space(w[i + 1]));
        }
        lemma_up_to(v, rest);
        assert(seq![w[0]] + v =~= w);
    }
}

/// A command is one of a C compiler where its first word is the compiler, by itself or in any
/// directory, whatever words follow.
pub proof fn law_compiler_command(dir: Seq<char>, rest: Seq<char>)
    requires
        forall|i: int| 0 <= i < dir.len() ==> !is_ascii_space(#[trigger] dir[i]),
        rest.len() > 0 ==> is_ascii_space(rest[0]),
    ensures
        is_cc("cc"@ + rest),
        is_cc("gcc"@ + rest),
        is_cc("clang"@ + rest),
        is_cc(dir + "/cc"@ + rest),
        is_cc(dir + "/gcc"@ + rest),
        is_cc(dir + "/clang"@ + rest),
{
    reveal_strlit("cc");
    reveal_strlit("gcc");
    reveal_strlit("clang");
    reveal_strlit("/cc");
    reveal_strlit("/gcc");
    reveal_strlit("/clang");
    lemma_first("cc"@, rest);
    lemma_first("gcc"@, rest);
    lemma_first("clang"@, rest);
    lemma_in_directory(dir, "/cc"@, rest);
    lemma_in_directory(dir, "/gcc"@, rest);
    lemma_in_directory(dir, "/clang"@, rest);
}

proof fn lemma_first(w: Seq<char>, rest: Seq<char>)
    requires
        w.len() > 0,
        forall|i: int| 0 <= i < w.len() ==> !is_ascii_space(#[trigger] w[i]),
        rest.len() > 0 ==> is_ascii_space(rest[0]),
    ensures
        first_word(w + rest) == w,
{
    lemma_up_to(w, rest);
    assert((w + rest)[0] == w[0]);
    assert(!is_ascii_space(w[0]));
}

proof fn lemma_in_directory(dir: Seq<char>, tail: Seq<char>, rest: Seq<char>)
    requires
        tail.len() > 0,
        forall|i: int| 0 <= i < dir.len() ==> !is_ascii_space(#[trigger] dir[i]),
        forall|i: int| 0 <= i < tail.len() ==> !is_ascii_space(#[trigger] tail[i]),
        rest.len() > 0 ==> is_ascii_space(rest[0]),
    ensures
        ends(first_word(dir + tail + rest), tail),
{
    let w = dir + tail;
    assert forall|i: int| 0 <= i < w.len() implies !is_ascii_space(#[trigger] w[i]) by {
        if i < dir.len() {
            assert(w[i] == dir[i]);
        } else {
            assert(w[i] == tail[i - dir.len()]);
        }
    }
    lemma_first(w, rest);
    assert(w.skip(dir.len() as int) =~= tail);
}

/// The counts of a conversion are those of the profile that it gave.
pub proof fn law_conversion_counts(p: ProfileView)
    requires
        p.sample.len() <= usize::MAX,
        p.function.len() <= usize::MAX,
        p.location.len() <= usize::MAX,
    ensures
        crate::cpuprofile::stats_of(p).samples == p.sample.len(),
        crate::cpuprofile::stats_of(p).functions == p.function.len(),
        crate::cpuprofile::stats_of(p).locations == p.location.len(),
        import_stats(p, 0).samples == p.sample.len(),
        import_stats(p, 0).locations == p.location.len(),
{
}

/// A line of folded text that is blank or a comment holds no stack, and one without a value is
/// refused.
pub proof fn law_folded_lines_without_stack(line: Seq<char>, more: Seq<char>)
    requires
        forall|i: int| 0 <= i < line.len() ==> is_space(#[trigger] line[i]),
    ensures
        line_entry(line) == Ok::<Option<FoldedStackView>, LineError>(None),
        line_entry(line + (seq!['#'] + more)) == Ok::<Option<FoldedStackView>, LineError>(None),
{
    let none = Seq::<char>::empty();
    law_trimmed(line, none, none);
    assert(line + none + none =~= line);
    lemma_comment(line, more);
}

proof fn lemma_comment(blank: Seq<char>, more: Seq<char>)
    requires
        forall|i: int| 0 <= i < blank.len() ==> is_space(#[trigger] blank[i]),
    ensures
        trim(blank + (seq!['#'] + more)).len() > 0,
        trim(blank + (seq!['#'] + more))[0] == '#',
    decreases blank.len(),
{
    let s = blank + (seq!['#'] + more);
    if blank.len() == 0 {
        assert(s =~= seq!['#'] + more);
        assert(s[0] == '#');
        assert(trim_start(s) == s);
        lemma_first_kept(s);
    } else {
        let rest = blank.drop_first();
        assert(is_space(blank[0]));
        assert(s[0] == blank[0]);
        assert(s.drop_first() =~= rest + (seq!['#'] + more));
        assert forall|i: int| 0 <= i < rest.len() implies is_space(#[trigger] rest[i]) by {
            assert(is_space(blank[i + 1]));
        }
        lemma_comment(rest, more);
    }
}

proof fn lemma_first_kept(s: Seq<char>)
    requires
        s.len() > 0,
        !is_space(s[0]),
    ensures
        trim_end(s).len() > 0,
        trim_end(s)[0] == s[0],
    decreases s.len(),
{
    if is_space(s.last()) {
        assert(s.len() > 1);
        lemma_first_kept(s.drop_last());
    }
}

/// An event adds its piece behind those that have come. A stream starts and ends when the first
/// event says so that says anything of it, and what stands beside a profile goes before what
/// stands in it.
pub proof fn law_event_taken(s: StreamView, e: EventView, data: JsonView, profile: JsonView, c: ChunkView)
    requires
        event_data(e) == Some(data),
        embedded(data) == Some(profile),
        chunk_json(data, profile, event_time(e)) == Some(c),
    ensures
        ingested(s, e) matches Some(r) && r.chunks == s.chunks.push(c) && c.ts == event_time(e) && (s.start_time is Some
            ==> r.start_time == s.start_time) && (s.start_time is None && int_member(data, "startTime"@) is Some
            ==> r.start_time == int_member(data, "startTime"@)) && (s.start_time is None && int_member(
            data,
            "startTime"@,
        ) is None ==> r.start_time == int_member(profile, "startTime"@)) && (s.end_time is Some ==> r.end_time
            == s.end_time) && (s.end_time is None && int_member(data, "endTime"@) is Some ==> r.end_time == int_member(
            data,
            "endTime"@,
        )) && (s.end_time is None && int_member(data, "endTime"@) is None ==> r.end_time == int_member(
            profile,
            "endTime"@,
        )),
        ints_or_none(get(data, "samples"@)) matches Some(x) ==> (x.len() > 0 ==> c.samples == x) && (x.len() == 0
            ==> ints_or_none(field(profile, "samples"@, 1)) == Some(c.samples)),
        ints_or_none(get(data, "timeDeltas"@)) matches Some(x) ==> (x.len() > 0 ==> c.time_deltas == x) && (x.len() == 0
            ==> ints_or_none(field(profile, "timeDeltas"@, 2)) == Some(c.time_deltas)),
        raw_nodes_json(field(profile, "nodes"@, 0)) == Some(c.nodes),
{
}

/// Profiles are told apart by process, thread and id, where the second id stands in for a first
/// one that is missing.
pub proof fn law_profile_key(e: EventView, pid: Seq<char>, tid: Seq<char>, id: Seq<char>)
    requires
        e.pid == Some(JsonView::Text(pid)),
        e.tid == Some(JsonView::Text(tid)),
    ensures
        e.id == Some(JsonView::Text(id)) ==> profile_key(e) == "pid="@ + pid + "/tid="@ + tid + "/id="@ + id,
        e.id is None && e.id2 == Some(JsonView::Text(id)) ==> profile_key(e) == "pid="@ + pid + "/tid="@ + tid + "/id="@
            + id,
        e.id is None && e.id2 is None ==> profile_key(e) == "pid="@ + pid + "/tid="@ + tid + "/id="@ + "none"@,
{
}

/// A long option may stand under one dash. What has one letter, two dashes or none stays as it
/// is.
pub proof fn law_long_options(name: Seq<char>, c: char)
    requires
        name.len() >= 2,
        name[0] != '-',
        c < '\u{80}',
    ensures
        normalized(seq!['-'] + name) == seq!['-', '-'] + name,
        normalized(seq!['-', '-'] + name) == seq!['-', '-'] + name,
        normalized(name) == name,
        normalized(seq!['-', c]) == seq!['-', c],
        normalized(seq!['-']) == seq!['-'],
{
    reveal_strlit("-");
    reveal_strlit("--");
    let one = seq!['-'] + name;
    let two = seq!['-', '-'] + name;
    assert("--"@ =~= seq!['-', '-']);
    assert("-"@ =~= seq!['-']);
    assert(one.take(1) =~= "-"@);
    assert(one[1] == name[0]);
    if starts(one, "--"@) {
        assert(one.take(2)[1] == '-');
    }
    assert("-"@ + one =~= two);
    assert(two.take(2) =~= "--"@);
    if starts(name, "-"@) {
        assert(name.take(1)[0] == '-');
    }
}

/// A binary is linked with the hook behind everything else, and an ELF file with its symbols
/// visible too.
pub proof fn law_linked_last(hook: Seq<char>, elf: bool)
    ensures
        link_tail(hook, elf).len() >= 1,
        link_tail(hook, elf)[0] == hook,
        !elf ==> link_tail(hook, elf).len() == 1,
        elf ==> link_tail(hook, elf).contains("-rdynamic"@) && link_tail(hook, elf).contains("-ldl"@) && link_tail(
            hook,
            elf,
        ).contains("-lpthread"@),
{
    let t = link_tail(hook, elf);
    if elf {
        assert(t[1] == "-rdynamic"@ && t[2] == "-ldl"@ && t[3] == "-lpthread"@);
    }
}

} // verus!

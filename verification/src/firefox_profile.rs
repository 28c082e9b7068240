//! The pprof profile of a Firefox Profiler profile.
use vstd::prelude::*;
use crate::codec::profile_bytes;
use crate::demangle::{Demangler, MoonBit};
use crate::firefox::{
    add_threads, counts_of, leaf_names, stack_known, stacks_of, thread_error, thread_kept,
    thread_known, thread_samples, threads_entered, threads_error, threads_known, threads_samples,
    time_total, times_of, BuildError, FirefoxTables, State,
};
use crate::firefox_model::{FirefoxProfile, Lib, Millis, Thread};
use crate::double::{nearest_nanos, round_nanos};
use crate::float::is_one_or_more;
use crate::gz::{compress_profile, gzipped, loaded, LoadError};
use crate::pool::{extends, law_entered, law_place_kept, lemma_extends_trans, text_id, TextIndex};
use crate::proto::{texts, Mapping, Profile, ProfileView, SampleView};
use crate::resolver::{FrameResolver, SampleResolver, SampleWeighting};
use crate::tables::{
    lemma_fixed_kept, lemma_start_tables, lemma_with_text, one_mapping, only_mapping, profile_ok,
    sample_ok, sample_types, start_tables, tables_ok, with_text, FixedIds, Tables, TablesView,
};
use crate::tally::{count_of, first_seen, law_totals_kept, sum, sum_of, total};

verus! {

/// A sampling interval in nanoseconds, at least one millisecond.
pub open spec fn interval_ns(m: Millis) -> i64 {
    if is_one_or_more(m.bits) {
        nearest_nanos(m.bits)
    } else {
        1_000_000
    }
}

/// A sampling interval in nanoseconds, at least one millisecond.
pub fn interval_nanos(m: Millis) -> (r: i64)
    ensures
        r == interval_ns(m),
{
    if 0x3ff0_0000_0000_0000 <= m.bits && m.bits <= 0x7ff0_0000_0000_0000 {
        round_nanos(m.bits)
    } else {
        1_000_000
    }
}

/// Where a profile came from.
#[derive(Clone, Copy, Debug, PartialEq, Eq, Structural)]
pub enum Source {
    /// samply's sampler of native code, whose samples are equally far apart.
    Samply,
    /// wasmtime's guest profiler, whose samples have time deltas.
    WasmtimeGuest,
}

/// How the samples of a profile are weighed.
pub open spec fn source_weighting(source: Source, p: FirefoxProfile) -> SampleWeighting {
    match source {
        Source::Samply => SampleWeighting::FixedInterval { interval_ns: interval_ns(p.meta.interval) },
        Source::WasmtimeGuest => SampleWeighting::PerSampleTimeDeltas {
            default_interval_ns: interval_ns(p.meta.interval),
        },
    }
}

/// How the samples of a profile are weighed.
pub fn weighting(source: Source, p: &FirefoxProfile) -> (r: SampleWeighting)
    ensures
        r == source_weighting(source, *p),
{
    let ns: i64 = interval_nanos(p.meta.interval);
    match source {
        Source::Samply => SampleWeighting::FixedInterval { interval_ns: ns },
        Source::WasmtimeGuest => SampleWeighting::PerSampleTimeDeltas { default_interval_ns: ns },
    }
}

/// The name of the first module, or `default` where there is none.
pub open spec fn first_lib(libs: Seq<Lib>, default: Seq<char>) -> Seq<char> {
    if libs.len() > 0 {
        libs[0].name@
    } else {
        default
    }
}

/// The file name of the mapping: the one given, or that of the first module.
pub open spec fn mapping_name(p: FirefoxProfile, given: Option<String>) -> Seq<char> {
    match given {
        Some(s) => s@,
        None => first_lib(p.libs@, "unknown"@),
    }
}

/// The file names of the mappings: one per module, and one where there is none. The first
/// one may be given.
pub open spec fn mapping_names(p: FirefoxProfile, given: Option<String>) -> Seq<Seq<char>> {
    Seq::new(
        if p.libs@.len() > 0 {
            p.libs@.len()
        } else {
            1
        },
        |i: int|
            if i == 0 {
                mapping_name(p, given)
            } else {
                p.libs@[i].name@
            },
    )
}

/// The mapping at a place.
pub open spec fn mapping_at(i: int, filename: i64) -> Mapping {
    Mapping { id: (i + 1) as u64, ..only_mapping(filename) }
}

/// The tables with texts entered.
pub open spec fn texts_entered(t: TablesView, s: Seq<Seq<char>>) -> TablesView
    decreases s.len(),
{
    if s.len() == 0 {
        t
    } else {
        with_text(texts_entered(t, s.drop_last()), s.last())
    }
}

/// The tables before the first thread.
pub open spec fn start_state(mappings: Seq<Seq<char>>) -> FirefoxTables {
    FirefoxTables {
        tables: texts_entered(
            start_tables("samples"@, "count"@, "cpu"@, "nanoseconds"@, mappings[0]),
            mappings,
        ),
        keys: Seq::empty(),
        mappings: mappings.len() as usize,
    }
}

proof fn lemma_texts_entered(t: TablesView, s: Seq<Seq<char>>)
    requires
        tables_ok(t),
    ensures
        tables_ok(texts_entered(t, s)),
        texts_entered(t, s).locations == t.locations,
        extends(t.strings, texts_entered(t, s).strings),
        forall|i: int| 0 <= i < s.len() ==> texts_entered(t, s).strings.contains(#[trigger] s[i]),
    decreases s.len(),
{
    if s.len() == 0 {
        assert(t.strings.take(t.strings.len() as int) =~= t.strings);
    } else {
        let front = texts_entered(t, s.drop_last());
        lemma_texts_entered(t, s.drop_last());
        lemma_with_text(front, s.last());
        law_entered(front.strings, s.last());
        let all = texts_entered(t, s);
        lemma_extends_trans(t.strings, front.strings, all.strings);
        assert forall|i: int| 0 <= i < s.len() implies all.strings.contains(#[trigger] s[i]) by {
            if i < s.len() - 1 {
                assert(s.drop_last()[i] == s[i]);
                assert(front.strings.contains(s.drop_last()[i]));
                law_place_kept(front.strings, all.strings, s[i]);
            }
        }
    }
}

/// The tables are consistent before the first thread, and hold no function.
pub(crate) proof fn lemma_start_state(mappings: Seq<Seq<char>>)
    requires
        0 < mappings.len() <= usize::MAX,
    ensures
        crate::firefox::firefox_ok(start_state(mappings)),
        start_state(mappings).tables.functions.len() == 0,
        start_state(mappings).mappings == mappings.len(),
        forall|i: int| 0 <= i < mappings.len() ==> start_state(mappings).tables.strings.contains(#[trigger] mappings[i]),
        extends(
            start_tables("samples"@, "count"@, "cpu"@, "nanoseconds"@, mappings[0]).strings,
            start_state(mappings).tables.strings,
        ),
{
    let t = start_tables("samples"@, "count"@, "cpu"@, "nanoseconds"@, mappings[0]);
    crate::tables::lemma_start_tables("samples"@, "count"@, "cpu"@, "nanoseconds"@, mappings[0]);
    lemma_texts_entered(t, mappings);
    lemma_functions_stay(t, mappings);
}

proof fn lemma_functions_stay(t: TablesView, s: Seq<Seq<char>>)
    ensures
        texts_entered(t, s).functions == t.functions,
    decreases s.len(),
{
    if s.len() > 0 {
        lemma_functions_stay(t, s.drop_last());
    }
}

/// The tables of a profile.
pub open spec fn profile_tables<F: FrameResolver, S: SampleResolver, D: Demangler>(
    p: FirefoxProfile,
    f: F,
    s: S,
    d: D,
    mappings: Seq<Seq<char>>,
) -> FirefoxTables {
    threads_entered(start_state(mappings), f, s, p, p.threads@, d)
}

/// The pprof profile: one sample per distinct stack of each thread.
pub open spec fn firefox_profile<F: FrameResolver, S: SampleResolver, D: Demangler>(
    p: FirefoxProfile,
    f: F,
    s: S,
    d: D,
    mappings: Seq<Seq<char>>,
) -> ProfileView {
    let t = profile_tables(p, f, s, d, mappings);
    let strings = t.tables.strings;
    let types = sample_types(strings, "samples"@, "count"@, "cpu"@, "nanoseconds"@);
    ProfileView {
        sample_type: types,
        sample: threads_samples(t.keys, f, s, p, p.threads@),
        mapping: Seq::new(mappings.len(), |i: int| mapping_at(i, text_id(strings, mappings[i]))),
        location: t.tables.locations,
        function: t.tables.functions,
        string_table: strings,
        drop_frames: 0,
        keep_frames: 0,
        time_nanos: nearest_nanos(p.meta.start_time.bits),
        duration_nanos: time_total(s, p, p.threads@) as i64,
        period_type: Some(types[1]),
        period: interval_ns(p.meta.interval),
        comment: Seq::empty(),
        default_sample_type: 0,
        doc_url: 0,
    }
}

/// Ids of a list of samples are those of locations, and each sample has two values.
pub(crate) open spec fn ids_fine(v: Seq<SampleView>, n: nat) -> bool {
    forall|i: int|
        0 <= i < v.len() ==> (#[trigger] v[i]).value.len() == 2 && forall|j: int|
            0 <= j < v[i].location_id.len() ==> 1 <= #[trigger] v[i].location_id[j] <= n
}

pub(crate) proof fn lemma_ids_fine<F: FrameResolver, S: SampleResolver>(
    keys: Seq<Seq<char>>,
    f: F,
    s: S,
    p: FirefoxProfile,
    threads: Seq<Thread>,
)
    requires
        keys.no_duplicates(),
        keys.len() <= u64::MAX,
        threads_known(keys, f, s, p, threads),
    ensures
        ids_fine(threads_samples(keys, f, s, p, threads), keys.len()),
    decreases threads.len(),
{
    if threads.len() > 0 {
        let n = threads.len() - 1;
        assert forall|i: int| 0 <= i < n implies thread_known(
            keys,
            f,
            s,
            p,
            #[trigger] threads.drop_last()[i],
        ) by {
            assert(thread_known(keys, f, s, p, threads[i]));
        }
        lemma_ids_fine(keys, f, s, p, threads.drop_last());
        let t = threads[n];
        assert(thread_known(keys, f, s, p, t));
        let a = threads_samples(keys, f, s, p, threads.drop_last());
        let b = thread_samples(keys, f, s, p, t);
        let leaves = first_seen(stacks_of(thread_kept(s, p, t)));
        assert forall|i: int| 0 <= i < b.len() implies (#[trigger] b[i]).value.len() == 2 && forall|j: int|
            0 <= j < b[i].location_id.len() ==> 1 <= #[trigger] b[i].location_id[j] <= keys.len() by {
            let names = leaf_names(f, p, t, leaves[i]);
            assert(stack_known(keys, names));
            assert forall|j: int| 0 <= j < b[i].location_id.len() implies 1 <= #[trigger] b[i].location_id[j]
                <= keys.len() by {
                assert(keys.contains(crate::firefox::canonical(names[j])));
            }
        }
        let v = a + b;
        assert forall|i: int| 0 <= i < v.len() implies (#[trigger] v[i]).value.len() == 2 && forall|j: int|
            0 <= j < v[i].location_id.len() ==> 1 <= #[trigger] v[i].location_id[j] <= keys.len() by {
            if i < a.len() {
                assert(v[i] == a[i]);
            } else {
                assert(v[i] == b[i - a.len()]);
            }
        }
    }
}

/// Converts a [`FirefoxProfile`] into pprof.
pub struct Builder<'a, F: FrameResolver, S: SampleResolver, D: Demangler> {
    pub profile: &'a FirefoxProfile,
    pub frames: F,
    pub samples: S,
    pub demangler: D,
    pub mapping: Option<String>,
}

impl<'a, F: FrameResolver, S: SampleResolver> Builder<'a, F, S, MoonBit> {
    /// A builder that demangles MoonBit names.
    pub fn new(profile: &'a FirefoxProfile, frames: F, samples: S) -> (r: Self)
        ensures
            r.profile == profile,
            r.frames == frames,
            r.samples == samples,
            r.mapping is None,
    {
        Builder { profile, frames, samples, demangler: MoonBit, mapping: None }
    }
}

/// The name of the first module, or `default` where there is none.
pub(crate) fn first_lib_name(p: &FirefoxProfile, default: &str) -> (r: String)
    ensures
        r@ == first_lib(p.libs@, default@),
{
    if p.libs.len() > 0 {
        p.libs[0].name.clone()
    } else {
        default.to_owned()
    }
}

/// The file names of the mappings.
fn names_of_mappings(p: &FirefoxProfile, given: &Option<String>) -> (r: Vec<String>)
    ensures
        texts(r@) == mapping_names(*p, *given),
{
    let first: String = match given {
        Some(s) => s.clone(),
        None => first_lib_name(p, "unknown"),
    };
    let mut r: Vec<String> = vec![first];
    let n: usize = p.libs.len();
    let mut i: usize = 1;
    while i < n
        invariant
            n == p.libs@.len(),
            r@.len() == i,
            1 <= i,
            n > 0 ==> i <= n,
            n == 0 ==> i == 1,
            r@[0]@ == mapping_name(*p, *given),
            forall|k: int| 1 <= k < i ==> (#[trigger] r@[k])@ == p.libs@[k].name@,
        decreases n - i,
    {
        r.push(p.libs[i].name.clone());
        i += 1;
    }
    assert(texts(r@) =~= mapping_names(*p, *given));
    r
}

/// The tables before the first thread.
fn start(names: &Vec<String>) -> (r: (State, FixedIds))
    requires
        names@.len() > 0,
    ensures
        r.0.wf(),
        r.0.mappings == names@.len(),
        r.0.value() == start_state(texts(names@)),
        r.1.types@ == sample_types(r.0.value().tables.strings, "samples"@, "count"@, "cpu"@, "nanoseconds"@),
        r.1.default_type == r.1.types@[1],
        extends(
            start_tables("samples"@, "count"@, "cpu"@, "nanoseconds"@, names@[0]@).strings,
            r.0.value().tables.strings,
        ),
{
    let ghost v = texts(names@);
    let (mut tables, fixed) = Tables::start("samples", "count", "cpu", "nanoseconds", names[0].as_str());
    let ghost t0 = tables@;
    proof {
        lemma_start_tables("samples"@, "count"@, "cpu"@, "nanoseconds"@, v[0]);
    }
    for i in 0..names.len()
        invariant
            v == texts(names@),
            tables.wf(),
            tables@ == texts_entered(t0, v.take(i as int)),
    {
        proof {
            assert(v.take(i + 1).drop_last() =~= v.take(i as int));
            assert(v.take(i + 1).last() == v[i as int]);
        }
        let _ = tables.intern(names[i].as_str());
    }
    let state = State { tables, keys: TextIndex::new(), mappings: names.len() };
    proof {
        assert(v.take(v.len() as int) =~= v);
        lemma_texts_entered(t0, v);
        lemma_fixed_kept(
            t0.strings,
            state.value().tables.strings,
            "samples"@,
            "count"@,
            "cpu"@,
            "nanoseconds"@,
            v[0],
        );
        assert(state.value() =~= start_state(v));
    }
    (state, fixed)
}

/// The mappings of a profile whose file names are in the tables.
fn list_mappings(tables: &mut Tables, names: &Vec<String>) -> (r: Vec<Mapping>)
    requires
        old(tables).wf(),
        forall|i: int| 0 <= i < names@.len() ==> old(tables)@.strings.contains((#[trigger] names@[i])@),
    ensures
        final(tables).wf(),
        final(tables)@ == old(tables)@,
        r@ == Seq::new(
            names@.len(),
            |i: int| mapping_at(i, text_id(old(tables)@.strings, texts(names@)[i])),
        ),
{
    let ghost t0 = tables@;
    let mut r: Vec<Mapping> = Vec::new();
    for i in 0..names.len()
        invariant
            tables.wf(),
            tables@ == t0,
            forall|i: int| 0 <= i < names@.len() ==> t0.strings.contains((#[trigger] names@[i])@),
            r@.len() == i,
            forall|k: int|
                0 <= k < i ==> (#[trigger] r@[k]) == mapping_at(k, text_id(t0.strings, texts(names@)[k])),
    {
        let id: i64 = tables.intern(names[i].as_str());
        assert(tables@ =~= t0);
        let mut m = one_mapping(id);
        m.id = i as u64 + 1;
        r.push(m);
    }
    assert(r@ =~= Seq::new(names@.len(), |i: int| mapping_at(i, text_id(t0.strings, texts(names@)[i]))));
    r
}

/// Builds the pprof profile.
pub(crate) fn build_profile<F: FrameResolver, S: SampleResolver, D: Demangler>(
    p: &FirefoxProfile,
    f: &F,
    s: &S,
    d: &D,
    names: &Vec<String>,
) -> (r: Result<Profile, BuildError>)
    requires
        names@.len() > 0,
    ensures
        match r {
            Ok(out) => {
                &&& threads_error(*f, *s, *p, p.threads@) is None
                &&& out@ == firefox_profile(*p, *f, *s, *d, texts(names@))
                &&& profile_ok(out@)
            },
            Err(e) => threads_error(*f, *s, *p, p.threads@) == Some(e),
        },
{
    let ghost v = texts(names@);
    let (state, fixed) = start(names);
    let mut state = state;
    let ghost first = state.value();
    let ghost t0 = start_tables("samples"@, "count"@, "cpu"@, "nanoseconds"@, v[0]);
    let (sample, time) = match add_threads(&mut state, f, s, p, d) {
        Ok(x) => x,
        Err(e) => {
            return Err(e);
        },
    };
    let ghost end = state.value();
    proof {
        lemma_start_tables("samples"@, "count"@, "cpu"@, "nanoseconds"@, v[0]);
        lemma_texts_entered(t0, v);
        lemma_extends_trans(t0.strings, first.tables.strings, end.tables.strings);
        lemma_fixed_kept(
            t0.strings,
            first.tables.strings,
            "samples"@,
            "count"@,
            "cpu"@,
            "nanoseconds"@,
            v[0],
        );
        lemma_fixed_kept(
            t0.strings,
            end.tables.strings,
            "samples"@,
            "count"@,
            "cpu"@,
            "nanoseconds"@,
            v[0],
        );
        lemma_ids_fine(end.keys, *f, *s, *p, p.threads@);
        assert forall|i: int| 0 <= i < names@.len() implies end.tables.strings.contains((#[trigger] names@[i])@) by {
            assert(first.tables.strings.contains(v[i]));
            law_place_kept(first.tables.strings, end.tables.strings, v[i]);
        }
    }
    let ghost mappings = state.mappings;
    let mut tables = state.tables;
    let mapping = list_mappings(&mut tables, names);
    let (string_table, function, location) = tables.into_parts();
    let out = Profile {
        sample_type: fixed.types,
        sample,
        mapping,
        location,
        function,
        string_table,
        drop_frames: 0,
        keep_frames: 0,
        time_nanos: round_nanos(p.meta.start_time.bits),
        duration_nanos: time,
        period_type: Some(fixed.default_type),
        period: interval_nanos(p.meta.interval),
        comment: Vec::new(),
        default_sample_type: 0,
        doc_url: 0,
    };
    proof {
        assert(out@ =~= firefox_profile(*p, *f, *s, *d, v));
        assert forall|i: int| 0 <= i < out@.sample.len() implies sample_ok(#[trigger] out@.sample[i], out@) by {
            assert(out@.sample[i].value.len() == 2);
        }
        assert forall|i: int| 0 <= i < out@.location.len() implies 1 <= (#[trigger] out@.location[i]).mapping_id
            <= out@.mapping.len() by {
            assert(end.tables.locations[i].mapping_id <= end.mappings);
        }
        assert forall|i: int| 0 <= i < out@.mapping.len() implies (#[trigger] out@.mapping[i]).id == i + 1 by {
            assert(i < mappings);
        }
    }
    Ok(out)
}

impl<'a, F: FrameResolver, S: SampleResolver, D: Demangler> Builder<'a, F, S, D> {
    /// Uses another demangler.
    pub fn demangle_with<E: Demangler>(self, demangler: E) -> (r: Builder<'a, F, S, E>)
        ensures
            r.profile == self.profile,
            r.frames == self.frames,
            r.samples == self.samples,
            r.demangler == demangler,
            r.mapping == self.mapping,
    {
        Builder {
            profile: self.profile,
            frames: self.frames,
            samples: self.samples,
            demangler,
            mapping: self.mapping,
        }
    }

    /// Names the file of the profile's first mapping.
    pub fn mapping_filename(self, name: &str) -> (r: Self)
        ensures
            r.profile == self.profile,
            r.frames == self.frames,
            r.samples == self.samples,
            r.demangler == self.demangler,
            r.mapping matches Some(s) && s@ == name@,
    {
        Builder {
            profile: self.profile,
            frames: self.frames,
            samples: self.samples,
            demangler: self.demangler,
            mapping: Some(name.to_owned()),
        }
    }

    /// Builds the pprof profile.
    pub fn build(self) -> (r: Result<Profile, BuildError>)
        ensures
            match r {
                Ok(out) => {
                    &&& threads_error(self.frames, self.samples, *self.profile, self.profile.threads@) is None
                    &&& out@ == firefox_profile(
                        *self.profile,
                        self.frames,
                        self.samples,
                        self.demangler,
                        mapping_names(*self.profile, self.mapping),
                    )
                    &&& profile_ok(out@)
                },
                Err(e) => threads_error(self.frames, self.samples, *self.profile, self.profile.threads@) == Some(e),
            },
    {
        let names = names_of_mappings(self.profile, &self.mapping);
        assert(texts(names@).len() == names@.len());
        build_profile(self.profile, &self.frames, &self.samples, &self.demangler, &names)
    }

    /// Builds the pprof profile and compresses it.
    pub fn encode(self) -> (r: Result<Vec<u8>, BuildError>)
        ensures
            encoded(*self.profile, self.frames, self.samples, self.demangler, self.mapping, r),
    {
        match self.build() {
            Ok(out) => match compress_profile(&out) {
                Ok(bytes) => Ok(bytes),
                Err(_) => Err(BuildError::Compress),
            },
            Err(e) => Err(e),
        }
    }
}

/// What the conversion of a profile gives.
pub open spec fn encoded<F: FrameResolver, S: SampleResolver, D: Demangler>(
    p: FirefoxProfile,
    f: F,
    s: S,
    d: D,
    mapping: Option<String>,
    r: Result<Vec<u8>, BuildError>,
) -> bool {
    let out = firefox_profile(p, f, s, d, mapping_names(p, mapping));
    match threads_error(f, s, p, p.threads@) {
        Some(e) => r == Err::<Vec<u8>, BuildError>(e),
        None => match r {
            Ok(bytes) => {
                &&& profile_ok(out)
                &&& gzipped(profile_bytes(out)) == Some(bytes@)
                &&& loaded(bytes@) == Ok::<ProfileView, LoadError>(out)
            },
            Err(e) => e == BuildError::Compress && gzipped(profile_bytes(out)) is None,
        },
    }
}

/// The sum of one of the values of samples.
pub open spec fn value_sum(v: Seq<SampleView>, i: int) -> int
    decreases v.len(),
{
    if v.len() == 0 {
        0
    } else {
        value_sum(v.drop_last(), i) + v.last().value[i]
    }
}

/// The counts of all samples.
pub open spec fn count_total<S: SampleResolver>(s: S, p: FirefoxProfile, threads: Seq<Thread>) -> int
    decreases threads.len(),
{
    if threads.len() == 0 {
        0
    } else {
        count_total(s, p, threads.drop_last()) + total(counts_of(thread_kept(s, p, threads.last())))
    }
}

proof fn lemma_value_sum_joined(a: Seq<SampleView>, b: Seq<SampleView>, i: int)
    ensures
        value_sum(a + b, i) == value_sum(a, i) + value_sum(b, i),
    decreases b.len(),
{
    if b.len() == 0 {
        assert(a + b =~= a);
    } else {
        assert((a + b).drop_last() =~= a + b.drop_last());
        lemma_value_sum_joined(a, b.drop_last(), i);
    }
}

proof fn lemma_value_sum(v: Seq<SampleView>, w: Seq<int>, i: int)
    requires
        v.len() == w.len(),
        forall|k: int| 0 <= k < v.len() ==> (#[trigger] v[k]).value[i] == w[k],
    ensures
        value_sum(v, i) == sum(w),
    decreases v.len(),
{
    if v.len() > 0 {
        let front = v.drop_last();
        assert forall|k: int| 0 <= k < front.len() implies (#[trigger] front[k]).value[i] == w.drop_last()[k] by {
            assert(v[k].value[i] == w[k]);
        }
        lemma_value_sum(front, w.drop_last(), i);
        assert(v[v.len() - 1].value[i] == w[v.len() - 1]);
    }
}

proof fn lemma_thread_totals<F: FrameResolver, S: SampleResolver>(
    keys: Seq<Seq<char>>,
    f: F,
    s: S,
    p: FirefoxProfile,
    t: Thread,
)
    requires
        thread_error(f, s, p, t) is None,
    ensures
        value_sum(thread_samples(keys, f, s, p, t), 0) == total(counts_of(thread_kept(s, p, t))),
        value_sum(thread_samples(keys, f, s, p, t), 1) == total(times_of(thread_kept(s, p, t))),
{
    let v = thread_kept(s, p, t);
    let k = stacks_of(v);
    let leaves = first_seen(k);
    let out = thread_samples(keys, f, s, p, t);
    law_totals_kept(k, counts_of(v));
    law_totals_kept(k, times_of(v));
    let counts = Seq::new(leaves.len(), |i: int| sum_of(k, counts_of(v), leaves[i]));
    let times = Seq::new(leaves.len(), |i: int| sum_of(k, times_of(v), leaves[i]));
    assert(counts =~= Seq::new(first_seen(k).len(), |i: int| sum_of(k, counts_of(v), first_seen(k)[i])));
    assert(times =~= Seq::new(first_seen(k).len(), |i: int| sum_of(k, times_of(v), first_seen(k)[i])));
    assert forall|i: int| 0 <= i < out.len() implies (#[trigger] out[i]).value[0] == counts[i] && out[i].value[1]
        == times[i] by {
        assert(count_of(k, first_seen(k)[i]) <= i64::MAX);
    }
    lemma_value_sum(out, counts, 0);
    lemma_value_sum(out, times, 1);
}

proof fn lemma_threads_totals<F: FrameResolver, S: SampleResolver>(
    keys: Seq<Seq<char>>,
    f: F,
    s: S,
    p: FirefoxProfile,
    threads: Seq<Thread>,
)
    requires
        threads_error(f, s, p, threads) is None,
    ensures
        value_sum(threads_samples(keys, f, s, p, threads), 0) == count_total(s, p, threads),
        value_sum(threads_samples(keys, f, s, p, threads), 1) == time_total(s, p, threads),
    decreases threads.len(),
{
    if threads.len() > 0 {
        let front = threads.drop_last();
        let t = threads.last();
        lemma_threads_totals(keys, f, s, p, front);
        lemma_thread_totals(keys, f, s, p, t);
        let a = threads_samples(keys, f, s, p, front);
        let b = thread_samples(keys, f, s, p, t);
        lemma_value_sum_joined(a, b, 0);
        lemma_value_sum_joined(a, b, 1);
    }
}

/// The pprof profile loses no sample and no time: its counts and its nanoseconds add up to
/// those of the samples that have a stack, and the duration is the sum of the nanoseconds.
pub proof fn law_firefox_totals<F: FrameResolver, S: SampleResolver, D: Demangler>(
    p: FirefoxProfile,
    f: F,
    s: S,
    d: D,
    mappings: Seq<Seq<char>>,
)
    requires
        threads_error(f, s, p, p.threads@) is None,
    ensures
        value_sum(firefox_profile(p, f, s, d, mappings).sample, 0) == count_total(s, p, p.threads@),
        value_sum(firefox_profile(p, f, s, d, mappings).sample, 1) == time_total(s, p, p.threads@),
        firefox_profile(p, f, s, d, mappings).duration_nanos == time_total(s, p, p.threads@),
{
    let keys = profile_tables(p, f, s, d, mappings).keys;
    lemma_threads_totals(keys, f, s, p, p.threads@);
}

} // verus!

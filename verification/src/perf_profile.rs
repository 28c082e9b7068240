//! The pprof profile of a `perf script` capture.
use vstd::prelude::*;
use crate::codec::profile_bytes;
use crate::demangle::{demangle, demangled};
use crate::gz::{compress_profile, gzipped, loaded, LoadError};
use crate::perf::{
    frame_views, parse, parsed, sample_views, ConvertError, ConvertOptions, Frame, FrameView, Sample,
    SampleView,
};
use crate::pool::{
    entered, extends, key_of_pair, law_entered, law_place_kept, lemma_extends_trans,
    lemma_position, pair_key, place, text_id, TextIndex,
};
use crate::proto::{Mapping, Profile, ProfileView, ValueType};
use crate::tables::{
    empty_tables, law_text_kept, lemma_with_function, lemma_with_location, lemma_with_text, profile_ok, sample_ok, tables_ok,
    with_function, with_location, with_text, Tables, TablesView,
};
use crate::tally::{
    count_of, first_seen, gathered, law_totals_kept, lemma_count_nonnegative, lemma_first_seen, lemma_sum_within,
    sum, sum_of, tally_fits, total, StackTally,
};

verus! {

/// The tables of a profile under construction.
#[verifier::ext_equal]
pub struct PerfTables {
    pub tables: TablesView,
    /// The binaries, one per mapping.
    pub dsos: Seq<Seq<char>>,
    pub mappings: Seq<Mapping>,
}

/// The name that a symbol is shown under.
pub open spec fn shown(symbol: Seq<char>, no_demangle: bool) -> Seq<char> {
    if no_demangle {
        symbol
    } else {
        demangled(symbol)
    }
}

/// What tells frames apart: the shown name together with the binary.
pub open spec fn frame_key(f: FrameView, no_demangle: bool) -> Seq<char> {
    pair_key(shown(f.symbol, no_demangle), f.dso)
}

/// The mapping of a binary.
pub open spec fn dso_mapping(id: u64, filename: i64, dso: Seq<char>) -> Mapping {
    Mapping {
        id,
        memory_start: 0,
        memory_limit: 0,
        file_offset: 0,
        filename,
        build_id: 0,
        has_functions: dso.len() > 0,
        has_filenames: false,
        has_line_numbers: false,
        has_inline_frames: false,
    }
}

/// The tables with a mapping for the binary.
pub open spec fn dso_entered(s: PerfTables, dso: Seq<char>) -> PerfTables {
    if s.dsos.contains(dso) {
        s
    } else {
        let t = with_text(s.tables, dso);
        PerfTables {
            tables: t,
            dsos: s.dsos.push(dso),
            mappings: s.mappings.push(
                dso_mapping((s.mappings.len() + 1) as u64, text_id(t.strings, dso), dso),
            ),
        }
    }
}

/// The tables with a function and a location for the frame.
pub open spec fn frame_entered(s: PerfTables, f: FrameView, no_demangle: bool) -> PerfTables {
    let key = frame_key(f, no_demangle);
    if s.tables.keys.contains(key) {
        s
    } else {
        let m = dso_entered(s, f.dso);
        let t = with_function(m.tables, key, shown(f.symbol, no_demangle), f.symbol, f.dso, 0);
        PerfTables { tables: with_location(t, place(m.dsos, f.dso), place(t.keys, key), 0, 0), ..m }
    }
}

/// The tables with every frame of a stack entered.
pub open spec fn stack_entered(s: PerfTables, stack: Seq<FrameView>, no_demangle: bool) -> PerfTables
    decreases stack.len(),
{
    if stack.len() == 0 {
        s
    } else {
        frame_entered(stack_entered(s, stack.drop_last(), no_demangle), stack.last(), no_demangle)
    }
}

/// The tables with every stack entered.
pub open spec fn samples_entered(s: PerfTables, samples: Seq<SampleView>, no_demangle: bool) -> PerfTables
    decreases samples.len(),
{
    if samples.len() == 0 {
        s
    } else {
        stack_entered(
            samples_entered(s, samples.drop_last(), no_demangle),
            samples.last().stack,
            no_demangle,
        )
    }
}

/// A stack as location ids.
pub open spec fn stack_ids(keys: Seq<Seq<char>>, stack: Seq<FrameView>, no_demangle: bool) -> Seq<u64> {
    Seq::new(stack.len(), |i: int| place(keys, frame_key(stack[i], no_demangle)))
}

/// The stacks that are not empty, as location ids.
pub open spec fn kept_stacks(keys: Seq<Seq<char>>, samples: Seq<SampleView>, no_demangle: bool) -> Seq<Seq<u64>>
    decreases samples.len(),
{
    if samples.len() == 0 {
        Seq::empty()
    } else if samples.last().stack.len() == 0 {
        kept_stacks(keys, samples.drop_last(), no_demangle)
    } else {
        kept_stacks(keys, samples.drop_last(), no_demangle).push(
            stack_ids(keys, samples.last().stack, no_demangle),
        )
    }
}

/// The periods of the samples whose stack is not empty.
pub open spec fn kept_periods(samples: Seq<SampleView>) -> Seq<i64>
    decreases samples.len(),
{
    if samples.len() == 0 {
        Seq::empty()
    } else if samples.last().stack.len() == 0 {
        kept_periods(samples.drop_last())
    } else {
        kept_periods(samples.drop_last()).push(samples.last().period as i64)
    }
}

/// The tables before the first frame: the fixed strings alone.
pub open spec fn start_tables(event_type: Seq<char>, event_unit: Seq<char>) -> PerfTables {
    PerfTables {
        tables: with_text(
            with_text(with_text(with_text(empty_tables(), "samples"@), "count"@), event_type),
            event_unit,
        ),
        dsos: Seq::empty(),
        mappings: Seq::empty(),
    }
}

/// The tables of a capture.
pub open spec fn capture_tables(
    samples: Seq<SampleView>,
    event_type: Seq<char>,
    event_unit: Seq<char>,
    no_demangle: bool,
) -> PerfTables {
    samples_entered(start_tables(event_type, event_unit), samples, no_demangle)
}

/// The stacks of a capture as location ids.
pub open spec fn capture_stacks(samples: Seq<SampleView>, opts: ConvertOptions) -> Seq<Seq<u64>> {
    kept_stacks(
        capture_tables(samples, opts.event_type@, opts.event_unit@, opts.no_demangle).tables.keys,
        samples,
        opts.no_demangle,
    )
}

/// The profile of a capture: a sample per distinct stack, with its count and its sum
/// of periods.
pub open spec fn capture_profile(samples: Seq<SampleView>, opts: ConvertOptions) -> ProfileView {
    let s = capture_tables(samples, opts.event_type@, opts.event_unit@, opts.no_demangle);
    let strings = s.tables.strings;
    let event = ValueType {
        ty: text_id(strings, opts.event_type@),
        unit: text_id(strings, opts.event_unit@),
    };
    ProfileView {
        sample_type: seq![
            ValueType { ty: text_id(strings, "samples"@), unit: text_id(strings, "count"@) },
            event,
        ],
        sample: gathered(capture_stacks(samples, opts), kept_periods(samples)),
        mapping: s.mappings,
        location: s.tables.locations,
        function: s.tables.functions,
        string_table: strings,
        drop_frames: 0,
        keep_frames: 0,
        time_nanos: 0,
        duration_nanos: 0,
        period_type: Some(event),
        period: 1,
        comment: Seq::empty(),
        default_sample_type: event.ty,
        doc_url: 0,
    }
}

/// What holds of the tables at any time.
pub(crate) open spec fn perf_ok(s: PerfTables) -> bool {
    &&& tables_ok(s.tables)
    &&& s.dsos.no_duplicates()
    &&& s.mappings.len() == s.dsos.len()
    &&& s.mappings.len() <= s.tables.functions.len()
    &&& forall|i: int| 0 <= i < s.mappings.len() ==> (#[trigger] s.mappings[i]).id == i + 1
    &&& s.tables.locations.len() == s.tables.functions.len()
    &&& forall|i: int|
        0 <= i < s.tables.locations.len() ==> 1 <= (#[trigger] s.tables.locations[i]).mapping_id <= s.mappings.len()
}

pub(crate) proof fn lemma_frame_entered(s: PerfTables, f: FrameView, no_demangle: bool)
    requires
        perf_ok(s),
        s.tables.functions.len() < u64::MAX,
    ensures
        perf_ok(frame_entered(s, f, no_demangle)),
        frame_entered(s, f, no_demangle).tables.keys == entered(s.tables.keys, frame_key(f, no_demangle)),
        extends(s.tables.keys, frame_entered(s, f, no_demangle).tables.keys),
        extends(s.tables.strings, frame_entered(s, f, no_demangle).tables.strings),
{
    let key = frame_key(f, no_demangle);
    law_entered(s.tables.keys, key);
    if s.tables.keys.contains(key) {
        assert(s.tables.strings.take(s.tables.strings.len() as int) =~= s.tables.strings);
    } else {
        let m = dso_entered(s, f.dso);
        law_entered(s.dsos, f.dso);
        lemma_with_text(s.tables, f.dso);
        law_entered(s.tables.strings, f.dso);
        let name = shown(f.symbol, no_demangle);
        let s1 = entered(m.tables.strings, name);
        let s2 = entered(s1, f.symbol);
        law_entered(m.tables.strings, name);
        law_entered(s1, f.symbol);
        law_entered(s2, f.dso);
        assert(s.tables.strings.take(s.tables.strings.len() as int) =~= s.tables.strings);
        lemma_extends_trans(s.tables.strings, m.tables.strings, s1);
        lemma_extends_trans(s.tables.strings, s1, s2);
        lemma_extends_trans(s.tables.strings, s2, entered(s2, f.dso));
        let t = with_function(m.tables, key, name, f.symbol, f.dso, 0);
        lemma_with_function(m.tables, key, name, f.symbol, f.dso, 0);
        lemma_with_location(t, place(m.dsos, f.dso), place(t.keys, key), 0, 0);
    }
}

/// A profile under construction.
struct Builder {
    tables: Tables,
    dso_ids: TextIndex,
    mappings: Vec<Mapping>,
    no_demangle: bool,
}

/// The tables. Whether names are demangled is no part of them.
impl View for Builder {
    type V = PerfTables;

    closed spec fn view(&self) -> PerfTables {
        PerfTables { tables: self.tables@, dsos: self.dso_ids.table(), mappings: self.mappings@ }
    }
}

impl Builder {
    spec fn wf(&self) -> bool {
        self.tables.wf() && self.dso_ids.wf() && perf_ok(self@)
    }

    /// The id of the mapping of a binary.
    fn mapping(&mut self, dso: &str) -> (id: u64)
        requires
            old(self).tables.wf(),
            old(self).dso_ids.wf(),
            old(self)@.mappings.len() == old(self)@.dsos.len(),
        ensures
            final(self).tables.wf(),
            final(self).dso_ids.wf(),
            final(self)@ == dso_entered(old(self)@, dso@),
            id == place(final(self)@.dsos, dso@),
            final(self).no_demangle == old(self).no_demangle,
    {
        if let Some(id) = self.dso_ids.get(dso) {
            return id;
        }
        let ghost s = self@;
        proof {
            self.dso_ids.lemma_table();
        }
        let filename: i64 = self.tables.intern(dso);
        let n: usize = self.mappings.len();
        self.mappings.push(
            Mapping {
                id: 0,
                memory_start: 0,
                memory_limit: 0,
                file_offset: 0,
                filename,
                build_id: 0,
                has_functions: !dso.is_empty(),
                has_filenames: false,
                has_line_numbers: false,
                has_inline_frames: false,
            },
        );
        let id: u64 = self.mappings.len() as u64;
        self.mappings[n].id = id;
        self.dso_ids.push(dso.to_owned(), id);
        proof {
            law_entered(s.dsos, dso@);
            lemma_position(s.dsos.push(dso@), n as int);
            assert(self@ =~= dso_entered(s, dso@));
        }
        id
    }

    /// The id of the location of a frame.
    fn frame(&mut self, f: &Frame) -> (id: u64)
        requires
            old(self).wf(),
        ensures
            final(self).wf(),
            final(self).no_demangle == old(self).no_demangle,
            final(self)@ == frame_entered(old(self)@, f@, old(self).no_demangle),
            id == place(final(self)@.tables.keys, frame_key(f@, old(self).no_demangle)),
    {
        let ghost s = self@;
        let name: String = if self.no_demangle {
            f.symbol.clone()
        } else {
            demangle(f.symbol.as_str())
        };
        let key = key_of_pair(name.as_str(), f.dso.as_str());
        if let Some(id) = self.tables.function_with(key.as_str()) {
            return id;
        }
        let ghost k = key@;
        let mid: u64 = self.mapping(f.dso.as_str());
        let fid: u64 = self.tables.function(key, name.as_str(), f.symbol.as_str(), f.dso.as_str(), 0);
        let id: u64 = self.tables.location(mid, fid, 0, 0);
        proof {
            let m = dso_entered(s, f@.dso);
            assert(self@ =~= frame_entered(s, f@, self.no_demangle));
            lemma_frame_entered(s, f@, self.no_demangle);
            assert(id == self@.tables.locations.len());
            lemma_position(self@.tables.keys, s.tables.keys.len() as int);
        }
        id
    }

    /// A stack as location ids.
    fn stack(&mut self, stack: &Vec<Frame>) -> (ids: Vec<u64>)
        requires
            old(self).wf(),
        ensures
            final(self).wf(),
            final(self).no_demangle == old(self).no_demangle,
            final(self)@ == stack_entered(old(self)@, frame_views(stack@), old(self).no_demangle),
            ids@ == stack_ids(final(self)@.tables.keys, frame_views(stack@), old(self).no_demangle),
            extends(old(self)@.tables.keys, final(self)@.tables.keys),
            forall|i: int|
                0 <= i < stack@.len() ==> final(self)@.tables.keys.contains(
                    frame_key(#[trigger] frame_views(stack@)[i], old(self).no_demangle),
                ),
    {
        let mut ids: Vec<u64> = Vec::new();
        let ghost v = frame_views(stack@);
        let ghost s = self@;
        let ghost nd = self.no_demangle;
        assert(s.tables.keys.take(s.tables.keys.len() as int) =~= s.tables.keys);
        for i in 0..stack.len()
            invariant
                v == frame_views(stack@),
                self.wf(),
                self.no_demangle == nd,
                self@ == stack_entered(s, v.take(i as int), nd),
                ids@ == stack_ids(self@.tables.keys, v.take(i as int), nd),
                extends(s.tables.keys, self@.tables.keys),
                forall|j: int| 0 <= j < i ==> self@.tables.keys.contains(frame_key(#[trigger] v[j], nd)),
        {
            let ghost before = self@;
            let ghost old_ids = ids@;
            proof {
                assert(v.take(i + 1).drop_last() =~= v.take(i as int));
            }
            let id: u64 = self.frame(&stack[i]);
            ids.push(id);
            proof {
                lemma_frame_entered_any(before, v[i as int], nd);
                lemma_extends_trans(s.tables.keys, before.tables.keys, self@.tables.keys);
                assert forall|j: int| 0 <= j < i + 1 implies self@.tables.keys.contains(
                    frame_key(#[trigger] v[j], nd),
                ) && (j < i ==> old_ids[j] == place(self@.tables.keys, frame_key(v[j], nd))) by {
                    if j < i {
                        law_place_kept(before.tables.keys, self@.tables.keys, frame_key(v[j], nd));
                    } else {
                        law_entered(before.tables.keys, frame_key(v[j], nd));
                    }
                }
                assert(ids@ =~= stack_ids(self@.tables.keys, v.take(i + 1), nd));
            }
        }
        assert(v.take(v.len() as int) =~= v);
        ids
    }
}

/// How the keys grow when a frame is entered.
proof fn lemma_frame_entered_any(s: PerfTables, f: FrameView, no_demangle: bool)
    requires
        perf_ok(s),
        perf_ok(frame_entered(s, f, no_demangle)),
    ensures
        frame_entered(s, f, no_demangle).tables.keys == entered(s.tables.keys, frame_key(f, no_demangle)),
        extends(s.tables.keys, frame_entered(s, f, no_demangle).tables.keys),
        frame_entered(s, f, no_demangle).tables.keys.no_duplicates(),
{
    law_entered(s.tables.keys, frame_key(f, no_demangle));
}

/// Whether every frame of every stack has a location.
spec fn all_known(keys: Seq<Seq<char>>, samples: Seq<SampleView>, no_demangle: bool) -> bool {
    forall|i: int, j: int|
        0 <= i < samples.len() && 0 <= j < samples[i].stack.len() ==> keys.contains(
            frame_key(#[trigger] samples[i].stack[j], no_demangle),
        )
}

/// Ids given out early stay right when the tables grow.
proof fn lemma_kept_stacks_stable(
    a: Seq<Seq<char>>,
    b: Seq<Seq<char>>,
    samples: Seq<SampleView>,
    no_demangle: bool,
)
    requires
        extends(a, b),
        b.no_duplicates(),
        all_known(a, samples, no_demangle),
    ensures
        kept_stacks(a, samples, no_demangle) == kept_stacks(b, samples, no_demangle),
        all_known(b, samples, no_demangle),
    decreases samples.len(),
{
    assert forall|i: int, j: int|
        0 <= i < samples.len() && 0 <= j < samples[i].stack.len() implies b.contains(
        frame_key(#[trigger] samples[i].stack[j], no_demangle),
    ) by {
        law_place_kept(a, b, frame_key(samples[i].stack[j], no_demangle));
    }
    if samples.len() > 0 {
        let n = samples.len() - 1;
        assert forall|i: int, j: int|
            0 <= i < samples.drop_last().len() && 0 <= j < samples.drop_last()[i].stack.len() implies a.contains(
            frame_key(#[trigger] samples.drop_last()[i].stack[j], no_demangle),
        ) by {
            assert(a.contains(frame_key(samples[i].stack[j], no_demangle)));
        }
        lemma_kept_stacks_stable(a, b, samples.drop_last(), no_demangle);
        let stack = samples[n].stack;
        assert forall|j: int| 0 <= j < stack.len() implies place(a, frame_key(#[trigger] stack[j], no_demangle))
            == place(b, frame_key(stack[j], no_demangle)) by {
            law_place_kept(a, b, frame_key(samples[n].stack[j], no_demangle));
        }
        assert(stack_ids(a, stack, no_demangle) =~= stack_ids(b, stack, no_demangle));
    }
}

/// The fixed strings are in the table from the start, and stay at their index.
pub(crate) proof fn lemma_start(event_type: Seq<char>, event_unit: Seq<char>)
    ensures
        perf_ok(start_tables(event_type, event_unit)),
        start_tables(event_type, event_unit).tables.strings.contains("samples"@),
        start_tables(event_type, event_unit).tables.strings.contains("count"@),
        start_tables(event_type, event_unit).tables.strings.contains(event_type),
        start_tables(event_type, event_unit).tables.strings.contains(event_unit),
{
    let t0 = empty_tables();
    let t1 = with_text(t0, "samples"@);
    let t2 = with_text(t1, "count"@);
    let t3 = with_text(t2, event_type);
    lemma_with_text(t0, "samples"@);
    lemma_with_text(t1, "count"@);
    lemma_with_text(t2, event_type);
    lemma_with_text(t3, event_unit);
    law_entered(t0.strings, "samples"@);
    law_entered(t1.strings, "count"@);
    law_entered(t2.strings, event_type);
    law_entered(t3.strings, event_unit);
}

proof fn lemma_start_ids(event_type: Seq<char>, event_unit: Seq<char>)
    ensures
        ({
            let s1 = entered(empty_tables().strings, "samples"@);
            let s2 = entered(s1, "count"@);
            let s3 = entered(s2, event_type);
            let s4 = start_tables(event_type, event_unit).tables.strings;
            &&& text_id(s1, "samples"@) == text_id(s4, "samples"@)
            &&& text_id(s2, "count"@) == text_id(s4, "count"@)
            &&& text_id(s3, event_type) == text_id(s4, event_type)
        }),
{
    let s0 = empty_tables().strings;
    let s1 = entered(s0, "samples"@);
    let s2 = entered(s1, "count"@);
    let s3 = entered(s2, event_type);
    law_entered(s0, "samples"@);
    law_entered(s1, "count"@);
    law_entered(s2, event_type);
    law_entered(s3, event_unit);
}

/// The stacks of a capture are gathered into a profile. `None` where a count or a sum
/// does not fit in 64 bits.
fn build(samples: &Vec<Sample>, opts: &ConvertOptions) -> (r: Option<Profile>)
    ensures
        match r {
            Some(p) => tally_fits(
                capture_stacks(sample_views(samples@), *opts),
                kept_periods(sample_views(samples@)),
            ) && p@ == capture_profile(sample_views(samples@), *opts) && profile_ok(p@),
            None => !tally_fits(
                capture_stacks(sample_views(samples@), *opts),
                kept_periods(sample_views(samples@)),
            ),
        },
{
    let ghost v = sample_views(samples@);
    let ghost nd = opts.no_demangle;
    let ghost start = start_tables(opts.event_type@, opts.event_unit@);
    let mut tables = Tables::new();
    let samples_str: i64 = tables.intern("samples");
    let count_str: i64 = tables.intern("count");
    let event_str: i64 = tables.intern(opts.event_type.as_str());
    let unit_str: i64 = tables.intern(opts.event_unit.as_str());
    proof {
        lemma_start(opts.event_type@, opts.event_unit@);
        lemma_start_ids(opts.event_type@, opts.event_unit@);
        tables.lemma_ok();
    }
    let mut b = Builder {
        tables,
        dso_ids: TextIndex::new(),
        mappings: Vec::new(),
        no_demangle: opts.no_demangle,
    };
    let mut tally = StackTally::new();
    assert(b@ =~= start);
    assert(v.take(0) =~= Seq::<SampleView>::empty());
    assert(start.tables.strings.take(start.tables.strings.len() as int) =~= start.tables.strings);
    for i in 0..samples.len()
        invariant
            v == sample_views(samples@),
            nd == opts.no_demangle,
            b.wf(),
            b.no_demangle == nd,
            b@ == samples_entered(start, v.take(i as int), nd),
            extends(start.tables.strings, b@.tables.strings),
            all_known(b@.tables.keys, v.take(i as int), nd),
            tally.wf(),
            tally.seen() == kept_stacks(b@.tables.keys, v.take(i as int), nd),
            tally.weights() == kept_periods(v.take(i as int)),
            tally.seen().len() <= i,
            forall|k: int| 0 <= k < tally.seen().len() ==> ids_ok(#[trigger] tally.seen()[k], b@),
    {
        let ghost before = b@;
        let ghost done = v.take(i as int);
        let ghost next = v.take(i + 1);
        assert(next.drop_last() =~= done);
        let ids = b.stack(&samples[i].stack);
        proof {
            lemma_kept_stacks_stable(before.tables.keys, b@.tables.keys, done, nd);
            assert forall|x: int, y: int|
                0 <= x < next.len() && 0 <= y < next[x].stack.len() implies b@.tables.keys.contains(
                frame_key(#[trigger] next[x].stack[y], nd),
            ) by {
                if x < i {
                    assert(b@.tables.keys.contains(frame_key(done[x].stack[y], nd)));
                } else {
                    assert(b@.tables.keys.contains(
                        frame_key(frame_views(samples@[i as int].stack@)[y], nd),
                    ));
                }
            }
            lemma_strings_grow(before, frame_views(samples@[i as int].stack@), nd, b@);
            lemma_extends_trans(start.tables.strings, before.tables.strings, b@.tables.strings);
            lemma_ids_ok(b@, frame_views(samples@[i as int].stack@), nd);
            assert forall|k: int| 0 <= k < tally.seen().len() implies ids_ok(#[trigger] tally.seen()[k], b@) by {
                assert(ids_ok(tally.seen()[k], before));
            }
        }
        if ids.len() > 0 {
            let weight: i64 = samples[i].period as i64;
            tally.add(ids, weight);
        }
    }
    assert(v.take(v.len() as int) =~= v);
    let ghost s = b@;
    let ghost seen = tally.seen();
    proof {
        tally.lemma_lengths();
    }
    let sample = match tally.finish() {
        Some(x) => x,
        None => {
            return None;
        },
    };
    let mappings = b.mappings;
    let (string_table, function, location) = b.tables.into_parts();
    proof {
        law_text_kept(start.tables.strings, s.tables.strings, "samples"@);
        law_text_kept(start.tables.strings, s.tables.strings, "count"@);
        law_text_kept(start.tables.strings, s.tables.strings, opts.event_type@);
        law_text_kept(start.tables.strings, s.tables.strings, opts.event_unit@);
    }
    let event = ValueType { ty: event_str, unit: unit_str };
    let mut sample_type: Vec<ValueType> = Vec::new();
    sample_type.push(ValueType { ty: samples_str, unit: count_str });
    sample_type.push(event);
    let p = Profile {
        sample_type,
        sample,
        mapping: mappings,
        location,
        function,
        string_table,
        drop_frames: 0,
        keep_frames: 0,
        time_nanos: 0,
        duration_nanos: 0,
        period_type: Some(event),
        period: 1,
        comment: Vec::new(),
        default_sample_type: event_str,
        doc_url: 0,
    };
    proof {
        assert(p@ =~= capture_profile(v, *opts));
        lemma_first_seen(seen);
        assert forall|i: int| 0 <= i < p@.sample.len() implies sample_ok(#[trigger] p@.sample[i], p@) by {
            let k = first_seen(seen)[i];
            assert(first_seen(seen).contains(k));
            assert(seen.contains(k));
            let j = seen.index_of(k);
            assert(ids_ok(seen[j], s));
        }
    }
    Some(p)
}

/// Whether the ids are those of locations.
spec fn ids_ok(ids: Seq<u64>, s: PerfTables) -> bool {
    forall|j: int| 0 <= j < ids.len() ==> 1 <= #[trigger] ids[j] <= s.tables.locations.len()
}

proof fn lemma_ids_ok(s: PerfTables, stack: Seq<FrameView>, no_demangle: bool)
    requires
        perf_ok(s),
        forall|i: int| 0 <= i < stack.len() ==> s.tables.keys.contains(frame_key(#[trigger] stack[i], no_demangle)),
    ensures
        ids_ok(stack_ids(s.tables.keys, stack, no_demangle), s),
{
    assert forall|j: int| 0 <= j < stack.len() implies 1 <= #[trigger] stack_ids(
        s.tables.keys,
        stack,
        no_demangle,
    )[j] <= s.tables.locations.len() by {
        assert(s.tables.keys.contains(frame_key(stack[j], no_demangle)));
    }
}

/// Entering frames only adds strings.
proof fn lemma_strings_grow(s: PerfTables, stack: Seq<FrameView>, no_demangle: bool, r: PerfTables)
    requires
        perf_ok(s),
        r == stack_entered(s, stack, no_demangle),
        perf_ok(r),
    ensures
        extends(s.tables.strings, r.tables.strings),
        s.tables.locations.len() <= r.tables.locations.len(),
        r.tables.keys.len() >= s.tables.keys.len(),
{
    lemma_stack_entered(s, stack, no_demangle);
}

proof fn lemma_stack_entered(s: PerfTables, stack: Seq<FrameView>, no_demangle: bool)
    requires
        perf_ok(s),
        stack_entered(s, stack, no_demangle).tables.functions.len() <= u64::MAX,
    ensures
        perf_ok(stack_entered(s, stack, no_demangle)),
        extends(s.tables.strings, stack_entered(s, stack, no_demangle).tables.strings),
        s.tables.functions.len() <= stack_entered(s, stack, no_demangle).tables.functions.len(),
    decreases stack.len(),
{
    if stack.len() == 0 {
        assert(s.tables.strings.take(s.tables.strings.len() as int) =~= s.tables.strings);
    } else {
        let r = stack_entered(s, stack.drop_last(), no_demangle);
        lemma_stack_entered(s, stack.drop_last(), no_demangle);
        if r.tables.functions.len() < u64::MAX {
            lemma_frame_entered(r, stack.last(), no_demangle);
            lemma_extends_trans(
                s.tables.strings,
                r.tables.strings,
                frame_entered(r, stack.last(), no_demangle).tables.strings,
            );
        } else {
            assert(frame_entered(r, stack.last(), no_demangle) == r);
        }
    }
}

/// What a conversion gives for these samples.
pub open spec fn converted(samples: Seq<SampleView>, opts: ConvertOptions, r: Result<Vec<u8>, ConvertError>) -> bool {
    let fits = tally_fits(capture_stacks(samples, opts), kept_periods(samples));
    let profile = capture_profile(samples, opts);
    match r {
        Ok(out) => fits && profile_ok(profile) && gzipped(profile_bytes(profile)) == Some(out@) && loaded(
            out@,
        ) == Ok::<ProfileView, LoadError>(profile),
        Err(ConvertError::Overflow) => !fits,
        Err(ConvertError::Compress) => fits && gzipped(profile_bytes(profile)) is None,
    }
}

/// Converts samples into a gzip-compressed pprof profile.
pub fn convert_from_samples(samples: Vec<Sample>, opts: &ConvertOptions) -> (r: Result<Vec<u8>, ConvertError>)
    ensures
        converted(sample_views(samples@), *opts, r),
{
    match build(&samples, opts) {
        Some(p) => match compress_profile(&p) {
            Ok(out) => Ok(out),
            Err(_) => Err(ConvertError::Compress),
        },
        None => Err(ConvertError::Overflow),
    }
}

/// Converts the text that `perf script` prints into a gzip-compressed pprof profile.
pub fn convert(input: &str, opts: &ConvertOptions) -> (r: Result<Vec<u8>, ConvertError>)
    ensures
        converted(parsed(input@), *opts, r),
{
    let samples = match parse(input) {
        Ok(s) => s,
        Err(e) => {
            return Err(e);
        },
    };
    convert_from_samples(samples, opts)
}

proof fn lemma_kept_lengths(keys: Seq<Seq<char>>, samples: Seq<SampleView>, no_demangle: bool)
    ensures
        kept_stacks(keys, samples, no_demangle).len() == kept_periods(samples).len(),
    decreases samples.len(),
{
    if samples.len() > 0 {
        lemma_kept_lengths(keys, samples.drop_last(), no_demangle);
    }
}

/// The profile loses no sample: the counts add up to the number of samples with a
/// stack, and the second values to the sum of their periods.
pub proof fn law_capture_totals(samples: Seq<SampleView>, opts: ConvertOptions)
    requires
        tally_fits(capture_stacks(samples, opts), kept_periods(samples)),
    ensures
        sum(Seq::new(
            capture_profile(samples, opts).sample.len(),
            |i: int| capture_profile(samples, opts).sample[i].value[0] as int,
        )) == kept_periods(samples).len(),
        sum(Seq::new(
            capture_profile(samples, opts).sample.len(),
            |i: int| capture_profile(samples, opts).sample[i].value[1] as int,
        )) == total(kept_periods(samples)),
{
    let s = capture_stacks(samples, opts);
    let w = kept_periods(samples);
    let p = capture_profile(samples, opts);
    lemma_kept_lengths(
        capture_tables(samples, opts.event_type@, opts.event_unit@, opts.no_demangle).tables.keys,
        samples,
        opts.no_demangle,
    );
    law_totals_kept(s, w);
    assert forall|i: int| 0 <= i < first_seen(s).len() implies 0 <= count_of(s, #[trigger] first_seen(s)[i]) by {
        lemma_count_nonnegative(s, first_seen(s)[i]);
    }
    assert(Seq::new(p.sample.len(), |i: int| p.sample[i].value[0] as int) =~= Seq::new(
        first_seen(s).len(),
        |i: int| count_of(s, first_seen(s)[i]),
    ));
    assert(Seq::new(p.sample.len(), |i: int| p.sample[i].value[1] as int) =~= Seq::new(
        first_seen(s).len(),
        |i: int| sum_of(s, w, first_seen(s)[i]),
    ));
}

/// The samples whose stack is not empty.
pub open spec fn with_stacks(samples: Seq<SampleView>) -> Seq<SampleView>
    decreases samples.len(),
{
    if samples.len() == 0 {
        Seq::empty()
    } else if samples.last().stack.len() == 0 {
        with_stacks(samples.drop_last())
    } else {
        with_stacks(samples.drop_last()).push(samples.last())
    }
}

proof fn lemma_with_stacks(s: PerfTables, keys: Seq<Seq<char>>, samples: Seq<SampleView>, no_demangle: bool)
    ensures
        samples_entered(s, with_stacks(samples), no_demangle) == samples_entered(s, samples, no_demangle),
        kept_stacks(keys, with_stacks(samples), no_demangle) == kept_stacks(keys, samples, no_demangle),
        kept_periods(with_stacks(samples)) == kept_periods(samples),
    decreases samples.len(),
{
    if samples.len() > 0 {
        let front = samples.drop_last();
        lemma_with_stacks(s, keys, front, no_demangle);
        if samples.last().stack.len() > 0 {
            assert(with_stacks(samples).drop_last() =~= with_stacks(front));
        }
    }
}

/// Samples with an empty stack contribute nothing.
pub proof fn law_empty_stacks_ignored(samples: Seq<SampleView>, opts: ConvertOptions)
    ensures
        capture_profile(with_stacks(samples), opts) == capture_profile(samples, opts),
        capture_stacks(with_stacks(samples), opts) == capture_stacks(samples, opts),
        kept_periods(with_stacks(samples)) == kept_periods(samples),
{
    let keys = capture_tables(samples, opts.event_type@, opts.event_unit@, opts.no_demangle).tables.keys;
    lemma_with_stacks(start_tables(opts.event_type@, opts.event_unit@), keys, samples, opts.no_demangle);
}

/// The periods of the samples that have a stack, added up.
pub open spec fn period_sum(samples: Seq<SampleView>) -> int
    decreases samples.len(),
{
    if samples.len() == 0 {
        0
    } else {
        period_sum(samples.drop_last()) + if samples.last().stack.len() == 0 {
            0
        } else {
            samples.last().period as int
        }
    }
}

proof fn lemma_period_sum(samples: Seq<SampleView>)
    ensures
        period_sum(samples) >= 0,
        period_sum(samples) <= i64::MAX ==> total(kept_periods(samples)) == period_sum(samples) && forall|i: int|
            0 <= i < kept_periods(samples).len() ==> 0 <= #[trigger] kept_periods(samples)[i],
        kept_periods(samples).len() <= samples.len(),
    decreases samples.len(),
{
    if samples.len() > 0 {
        lemma_period_sum(samples.drop_last());
        let front = kept_periods(samples.drop_last());
        let all = kept_periods(samples);
        if samples.last().stack.len() > 0 {
            assert(all.drop_last() =~= front);
        }
    }
}

/// A capture whose periods add up to a 64-bit number is converted, whether it is given as
/// text or as the samples of that text, and to the same bytes, which hold its profile. Only
/// compression may still fail.
pub proof fn law_capture_converted(
    input: Seq<char>,
    opts: ConvertOptions,
    from_text: Result<Vec<u8>, ConvertError>,
    from_samples: Result<Vec<u8>, ConvertError>,
)
    requires
        converted(parsed(input), opts, from_text),
        converted(parsed(input), opts, from_samples),
        period_sum(parsed(input)) <= i64::MAX,
        parsed(input).len() <= i64::MAX,
    ensures
        from_text is Err ==> from_text == Err::<Vec<u8>, ConvertError>(ConvertError::Compress),
        from_text is Ok <==> from_samples is Ok,
        from_text matches Ok(a) ==> from_samples matches Ok(b) ==> a@ == b@ && loaded(a@) == Ok::<
            ProfileView,
            LoadError,
        >(capture_profile(parsed(input), opts)),
{
    let samples = parsed(input);
    let s = capture_stacks(samples, opts);
    let w = kept_periods(samples);
    lemma_kept_lengths(
        capture_tables(samples, opts.event_type@, opts.event_unit@, opts.no_demangle).tables.keys,
        samples,
        opts.no_demangle,
    );
    lemma_period_sum(samples);
    assert forall|i: int| 0 <= i < first_seen(s).len() implies count_of(s, #[trigger] first_seen(s)[i]) <= i64::MAX
        && i64::MIN <= sum_of(s, w, first_seen(s)[i]) <= i64::MAX by {
        lemma_sum_within(s, w, first_seen(s)[i]);
    }
}

} // verus!

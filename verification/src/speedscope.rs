//! Speedscope sampled profiles as pprof.
use vstd::prelude::*;
use crate::codec::profile_bytes;
use crate::double::{difference_i64, round_difference};
use crate::float::{nearest_i64, round_nearest};
use crate::folded::{duration_nanos, import_stats, unit_nanos, EncodedPprof, ImportStats};
use crate::gz::{compress_profile, gzipped, loaded, LoadError};
use crate::num::{clamped, fits_i64, is_i64};
use crate::pool::{extends, lemma_extends_trans, place, text_id};
use crate::proto::{Mapping, Profile, ProfileView, Sample};
use crate::resolve::{frame_views, Frame, FrameView};
use crate::tables::{
    lemma_fixed_kept, lemma_function_grows, lemma_start_tables, profile_ok, sample_ok,
    sample_types, start_tables, tables_ok, with_function, with_location, Tables, TablesView,
};
use crate::tally::{counted, counted_sample, sum};
use crate::text::{append_decimal, dec, law_decimal_round_trip};

verus! {

/// Options for Speedscope import.
#[derive(Debug)]
pub struct SpeedscopeImportOptions {
    /// Which profile of the file to import.
    pub profile_index: usize,
    /// File name of the mapping. Default `speedscope`.
    pub mapping_filename: String,
}

impl Default for SpeedscopeImportOptions {
    fn default() -> (r: SpeedscopeImportOptions)
        ensures
            r.profile_index == 0,
            r.mapping_filename@ == "speedscope"@,
    {
        SpeedscopeImportOptions { profile_index: 0, mapping_filename: "speedscope".to_owned() }
    }
}

/// Why a file was not imported.
#[derive(Clone, Copy, Debug, PartialEq, Eq, Structural)]
pub enum SpeedscopeError {
    /// The text is no JSON.
    Json,
    /// The JSON is no Speedscope file.
    Shape,
    /// The file has fewer profiles than the index asks for.
    ProfileIndex { index: usize, profiles: usize },
    /// The profile is not a sampled one.
    NotSampled,
    /// The weights add up to more than 64 bits hold.
    Overflow,
    /// Compression failed.
    Compress,
}

/// A profile of a file. Numbers that need not be integers are held by their double
/// precision bit patterns.
#[derive(Debug)]
pub struct SampledProfile {
    pub profile_type: String,
    pub unit: String,
    pub start_value: u64,
    pub end_value: u64,
    /// Stacks as frame indices, root first.
    pub samples: Vec<Vec<usize>>,
    /// One per sample. What is missing counts as 1.
    pub weights: Vec<u64>,
}

/// A Speedscope file, as far as it is read.
#[derive(Debug)]
pub struct SpeedscopeFile {
    pub frames: Vec<Frame>,
    pub profiles: Vec<SampledProfile>,
}

/// The value of a [`SampledProfile`].
#[verifier::ext_equal]
pub struct SampledProfileView {
    pub profile_type: Seq<char>,
    pub unit: Seq<char>,
    pub start_value: u64,
    pub end_value: u64,
    pub samples: Seq<Seq<usize>>,
    pub weights: Seq<u64>,
}

/// The value of a [`SpeedscopeFile`].
#[verifier::ext_equal]
pub struct SpeedscopeFileView {
    pub frames: Seq<FrameView>,
    pub profiles: Seq<SampledProfileView>,
}

pub open spec fn index_lists(s: Seq<Vec<usize>>) -> Seq<Seq<usize>> {
    Seq::new(s.len(), |i: int| s[i]@)
}

impl View for SampledProfile {
    type V = SampledProfileView;

    open spec fn view(&self) -> SampledProfileView {
        SampledProfileView {
            profile_type: self.profile_type@,
            unit: self.unit@,
            start_value: self.start_value,
            end_value: self.end_value,
            samples: index_lists(self.samples@),
            weights: self.weights@,
        }
    }
}

pub open spec fn sampled_views(s: Seq<SampledProfile>) -> Seq<SampledProfileView> {
    Seq::new(s.len(), |i: int| s[i]@)
}

impl View for SpeedscopeFile {
    type V = SpeedscopeFileView;

    open spec fn view(&self) -> SpeedscopeFileView {
        SpeedscopeFileView {
            frames: frame_views(self.frames@),
            profiles: sampled_views(self.profiles@),
        }
    }
}

/// The pprof sample type for a Speedscope unit.
pub open spec fn value_type_of(unit: Seq<char>) -> (Seq<char>, Seq<char>) {
    if unit == "nanoseconds"@ || unit == "microseconds"@ || unit == "milliseconds"@ || unit == "seconds"@ {
        ("cpu"@, unit)
    } else if unit == "bytes"@ {
        ("space"@, "bytes"@)
    } else {
        ("samples"@, "count"@)
    }
}

/// A number rounded to an integer, 0 where it is below.
pub open spec fn weight_of(bits: u64) -> i64 {
    if nearest_i64(bits) < 0 {
        0
    } else {
        nearest_i64(bits)
    }
}

/// The weight of the sample at position `i`.
pub open spec fn weight_at(weights: Seq<u64>, i: int) -> i64 {
    if i < weights.len() {
        weight_of(weights[i])
    } else {
        1
    }
}

/// A stack as location ids, leaf first. Indices past the last frame are left out.
pub open spec fn kept_ids(stack: Seq<usize>, frames: nat) -> Seq<u64>
    decreases stack.len(),
{
    if stack.len() == 0 {
        Seq::empty()
    } else {
        (if stack.last() < frames {
            seq![(stack.last() + 1) as u64]
        } else {
            Seq::empty()
        }) + kept_ids(stack.drop_last(), frames)
    }
}

/// The samples of weight that have a stack.
pub open spec fn weighed(
    stacks: Seq<Seq<usize>>,
    weights: Seq<u64>,
    frames: nat,
) -> Seq<(Seq<u64>, i64)>
    decreases stacks.len(),
{
    if stacks.len() == 0 {
        Seq::empty()
    } else {
        let before = weighed(stacks.drop_last(), weights, frames);
        let w = weight_at(weights, stacks.len() - 1);
        let ids = kept_ids(stacks.last(), frames);
        if w == 0 || ids.len() == 0 {
            before
        } else {
            before.push((ids, w))
        }
    }
}

/// The sum of the weights.
pub open spec fn weight_total(v: Seq<(Seq<u64>, i64)>) -> int {
    sum(Seq::new(v.len(), |i: int| v[i].1 as int))
}

/// The name of a frame, a made-up one where it is empty.
pub open spec fn shown_name(name: Seq<char>) -> Seq<char> {
    if name.len() == 0 {
        "(unknown)"@
    } else {
        name
    }
}

pub open spec fn or_zero(n: Option<i64>) -> i64 {
    match n {
        Some(x) => x,
        None => 0,
    }
}

pub open spec fn or_no_text(s: Option<Seq<char>>) -> Seq<char> {
    match s {
        Some(x) => x,
        None => Seq::empty(),
    }
}

/// The tables with a function and a location for each frame, in their order.
pub open spec fn frames_tabled(t: TablesView, frames: Seq<FrameView>) -> TablesView
    decreases frames.len(),
{
    if frames.len() == 0 {
        t
    } else {
        let before = frames_tabled(t, frames.drop_last());
        let f = frames.last();
        let key = dec((frames.len() - 1) as nat);
        let line = or_zero(f.line);
        let u = with_function(
            before,
            key,
            shown_name(f.name),
            shown_name(f.name),
            or_no_text(f.file),
            line,
        );
        with_location(u, 1, place(u.keys, key), line, or_zero(f.col))
    }
}

/// The mapping of an imported file.
pub open spec fn file_mapping(filename: i64) -> Mapping {
    Mapping {
        id: 1,
        memory_start: 0,
        memory_limit: 0,
        file_offset: 0,
        filename,
        build_id: 0,
        has_functions: true,
        has_filenames: true,
        has_line_numbers: true,
        has_inline_frames: false,
    }
}

/// The pprof profile of a sampled profile.
pub open spec fn speedscope_profile(
    frames: Seq<FrameView>,
    p: SampledProfileView,
    mapping: Seq<char>,
) -> ProfileView {
    let (ty, unit) = value_type_of(p.unit);
    let t = frames_tabled(start_tables("samples"@, "count"@, ty, unit, mapping), frames);
    let types = sample_types(t.strings, "samples"@, "count"@, ty, unit);
    let v = weighed(p.samples, p.weights, frames.len());
    ProfileView {
        sample_type: types,
        sample: Seq::new(v.len(), |i: int| counted(v[i].0, (1, v[i].1))),
        mapping: seq![file_mapping(text_id(t.strings, mapping))],
        location: t.locations,
        function: t.functions,
        string_table: t.strings,
        drop_frames: 0,
        keep_frames: 0,
        time_nanos: 0,
        duration_nanos: clamped(difference_i64(p.end_value, p.start_value) * unit_nanos(p.unit)),
        period_type: Some(types[1]),
        period: 1,
        comment: Seq::empty(),
        default_sample_type: types[1].ty,
        doc_url: 0,
    }
}

fn round_weight(bits: u64) -> (r: i64)
    ensures
        r == weight_of(bits),
        r >= 0,
{
    let n: i64 = round_nearest(bits);
    if n < 0 {
        0
    } else {
        n
    }
}

fn ids_of_stack(stack: &Vec<usize>, frames: usize) -> (r: Vec<u64>)
    ensures
        r@ == kept_ids(stack@, frames as nat),
        forall|i: int| 0 <= i < r@.len() ==> 1 <= #[trigger] r@[i] <= frames,
{
    let mut r: Vec<u64> = Vec::new();
    let mut n: usize = stack.len();
    assert(stack@.take(n as int) =~= stack@);
    assert(r@ + kept_ids(stack@, frames as nat) =~= kept_ids(stack@, frames as nat));
    while n > 0
        invariant
            n <= stack@.len(),
            kept_ids(stack@, frames as nat) == r@ + kept_ids(stack@.take(n as int), frames as nat),
            forall|i: int| 0 <= i < r@.len() ==> 1 <= #[trigger] r@[i] <= frames,
        decreases n,
    {
        let ghost before = r@;
        let ghost rest = kept_ids(stack@.take(n - 1), frames as nat);
        assert(stack@.take(n as int).drop_last() =~= stack@.take(n - 1));
        let k: usize = stack[n - 1];
        if k < frames {
            r.push((k + 1) as u64);
            assert(before + (seq![(k + 1) as u64] + rest) =~= r@ + rest);
        } else {
            assert(before + (Seq::<u64>::empty() + rest) =~= r@ + rest);
        }
        n -= 1;
    }
    assert(r@ + kept_ids(stack@.take(0), frames as nat) =~= r@);
    r
}

/// What holds of the tables at any time: each frame has a function and a location.
spec fn tabled_ok(t: TablesView, n: nat) -> bool {
    &&& tables_ok(t)
    &&& t.locations.len() == n
    &&& t.functions.len() == n
    &&& forall|i: int| 0 <= i < n ==> #[trigger] t.keys[i] == dec(i as nat)
    &&& forall|i: int| 0 <= i < n ==> (#[trigger] t.locations[i]).mapping_id == 1
}

proof fn lemma_new_key(t: TablesView, n: nat)
    requires
        tabled_ok(t, n),
    ensures
        !t.keys.contains(dec(n)),
{
    if t.keys.contains(dec(n)) {
        let i = t.keys.index_of(dec(n));
        assert(t.keys[i] == dec(i as nat));
        law_decimal_round_trip(n);
        law_decimal_round_trip(i as nat);
    }
}

fn table_frames(t: &mut Tables, frames: &Vec<Frame>)
    requires
        old(t).wf(),
        tabled_ok(old(t)@, 0),
    ensures
        final(t).wf(),
        tabled_ok(final(t)@, frames@.len()),
        final(t)@ == frames_tabled(old(t)@, frame_views(frames@)),
        extends(old(t)@.strings, final(t)@.strings),
{
    let ghost v = frame_views(frames@);
    let ghost t0 = t@;
    proof {
        reveal_strlit("");
        assert(""@ =~= Seq::<char>::empty());
        assert(t0.strings.take(t0.strings.len() as int) =~= t0.strings);
    }
    for i in 0..frames.len()
        invariant
            ""@ == Seq::<char>::empty(),
            v == frame_views(frames@),
            t.wf(),
            tabled_ok(t@, i as nat),
            t@ == frames_tabled(t0, v.take(i as int)),
            extends(t0.strings, t@.strings),
    {
        let ghost before = t@;
        let f = &frames[i];
        let mut key = String::new();
        append_decimal(&mut key, i as u64);
        proof {
            assert(v.take(i + 1).drop_last() =~= v.take(i as int));
            assert(v.take(i + 1).last() == f@);
            assert(key@ =~= dec(i as nat));
            lemma_new_key(before, i as nat);
        }
        let name: &str = if f.name.as_str().is_empty() {
            "(unknown)"
        } else {
            f.name.as_str()
        };
        let file: &str = match &f.file {
            Some(s) => s.as_str(),
            None => "",
        };
        let line: i64 = match f.line {
            Some(n) => n,
            None => 0,
        };
        let col: i64 = match f.col {
            Some(n) => n,
            None => 0,
        };
        let ghost k = key@;
        let fid: u64 = t.function(key, name, name, file, line);
        let ghost mid = t@;
        let _ = t.location(1, fid, line, col);
        proof {
            lemma_function_grows(before, k, name@, name@, file@, line);
            lemma_extends_trans(t0.strings, before.strings, t@.strings);
            t.lemma_ok();
            assert(t@.keys == before.keys.push(k));
        }
    }
    assert(v.take(v.len() as int) =~= v);
}

fn file_mapping_of(filename: i64) -> (r: Mapping)
    ensures
        r == file_mapping(filename),
{
    Mapping {
        id: 1,
        memory_start: 0,
        memory_limit: 0,
        file_offset: 0,
        filename,
        build_id: 0,
        has_functions: true,
        has_filenames: true,
        has_line_numbers: true,
        has_inline_frames: false,
    }
}

/// The samples of weight, and the sum of their weights. `None` where that does not fit
/// in 64 bits.
fn weigh(p: &SampledProfile, frames: usize) -> (r: Option<(Vec<Sample>, i64)>)
    ensures
        ({
            let v = weighed(p@.samples, p@.weights, frames as nat);
            match r {
                Some((out, total)) => {
                    &&& is_i64(weight_total(v)) && total == weight_total(v)
                    &&& out@.len() == v.len()
                    &&& forall|i: int| 0 <= i < out@.len() ==> (#[trigger] out@[i])@ == counted(v[i].0, (1, v[i].1))
                    &&& forall|i: int, j: int|
                        0 <= i < out@.len() && 0 <= j < out@[i].location_id@.len() ==> 1
                            <= #[trigger] out@[i].location_id@[j] <= frames
                },
                None => !is_i64(weight_total(v)),
            }
        }),
{
    let ghost stacks = p@.samples;
    let ghost w = p@.weights;
    let mut out: Vec<Sample> = Vec::new();
    let mut total: i128 = 0;
    assert(Seq::new(0, |i: int| weighed(stacks.take(0), w, frames as nat)[i].1 as int) =~= Seq::<int>::empty());
    for i in 0..p.samples.len()
        invariant
            stacks == p@.samples,
            w == p@.weights,
            total == weight_total(weighed(stacks.take(i as int), w, frames as nat)),
            0 <= total <= i * 0x8000_0000_0000_0000,
            out@.len() == weighed(stacks.take(i as int), w, frames as nat).len(),
            forall|k: int|
                0 <= k < out@.len() ==> (#[trigger] out@[k])@ == counted(
                    weighed(stacks.take(i as int), w, frames as nat)[k].0,
                    (1, weighed(stacks.take(i as int), w, frames as nat)[k].1),
                ),
            forall|k: int, j: int|
                0 <= k < out@.len() && 0 <= j < out@[k].location_id@.len() ==> 1
                    <= #[trigger] out@[k].location_id@[j] <= frames,
    {
        let ghost done = weighed(stacks.take(i as int), w, frames as nat);
        let ghost next = weighed(stacks.take(i + 1), w, frames as nat);
        let ghost before = out@;
        proof {
            assert(stacks.take(i + 1).drop_last() =~= stacks.take(i as int));
            assert(stacks.take(i + 1).last() == p.samples@[i as int]@);
            assert(i * 0x8000_0000_0000_0000 < 0x7fff_ffff_ffff_ffff_ffff_ffff_ffff_ffff - 0x8000_0000_0000_0000)
                by (nonlinear_arith)
                requires
                    i < 0xffff_ffff_ffff_ffff,
            ;
        }
        let weight: i64 = if i < p.weights.len() {
            round_weight(p.weights[i])
        } else {
            1
        };
        if weight != 0 {
            let ids = ids_of_stack(&p.samples[i], frames);
            let ghost ids_v = ids@;
            if ids.len() > 0 {
                out.push(counted_sample(ids, (1, weight)));
                total = total + weight as i128;
                proof {
                    assert(next == done.push((ids_v, weight)));
                    let a = Seq::new(done.len(), |k: int| done[k].1 as int);
                    let b = Seq::new(next.len(), |k: int| next[k].1 as int);
                    assert(b.drop_last() =~= a);
                    assert forall|k: int| 0 <= k < out@.len() implies (#[trigger] out@[k])@ == counted(
                        next[k].0,
                        (1, next[k].1),
                    ) by {
                        if k < before.len() {
                            assert(out@[k] == before[k]);
                        }
                    }
                    assert forall|k: int, j: int|
                        0 <= k < out@.len() && 0 <= j < out@[k].location_id@.len() implies 1
                        <= #[trigger] out@[k].location_id@[j] <= frames by {
                        if k < before.len() {
                            assert(out@[k] == before[k]);
                        } else {
                            assert(out@[k].location_id@ == ids_v);
                        }
                    }
                }
            }
        }
    }
    assert(stacks.take(stacks.len() as int) =~= stacks);
    if fits_i64(total) {
        Some((out, total as i64))
    } else {
        None
    }
}

/// What the import of a file gives.
pub open spec fn imported(
    file: SpeedscopeFileView,
    opts: SpeedscopeImportOptions,
    r: Result<EncodedPprof, SpeedscopeError>,
) -> bool {
    if opts.profile_index >= file.profiles.len() {
        r == Err::<EncodedPprof, SpeedscopeError>(
            SpeedscopeError::ProfileIndex {
                index: opts.profile_index,
                profiles: file.profiles.len() as usize,
            },
        )
    } else {
        let p = file.profiles[opts.profile_index as int];
        if p.profile_type != "sampled"@ {
            r == Err::<EncodedPprof, SpeedscopeError>(SpeedscopeError::NotSampled)
        } else {
            let total = weight_total(weighed(p.samples, p.weights, file.frames.len()));
            let out = speedscope_profile(file.frames, p, opts.mapping_filename@);
            match r {
                Ok(e) => {
                    &&& is_i64(total)
                    &&& profile_ok(out)
                    &&& gzipped(profile_bytes(out)) == Some(e.encoded@)
                    &&& loaded(e.encoded@) == Ok::<ProfileView, LoadError>(out)
                    &&& e.stats == import_stats(out, total)
                },
                Err(SpeedscopeError::Overflow) => !is_i64(total),
                Err(SpeedscopeError::Compress) => is_i64(total) && gzipped(profile_bytes(out)) is None,
                Err(_) => false,
            }
        }
    }
}

fn speedscope_value_type<'a>(unit: &'a str) -> (r: (&'a str, &'a str))
    ensures
        (r.0@, r.1@) == value_type_of(unit@),
{
    if unit.eq("nanoseconds") || unit.eq("microseconds") || unit.eq("milliseconds") || unit.eq("seconds") {
        ("cpu", unit)
    } else if unit.eq("bytes") {
        ("space", "bytes")
    } else {
        ("samples", "count")
    }
}

/// The pprof profile of a sampled profile whose samples have been weighed.
fn build_profile(frames: &Vec<Frame>, p: &SampledProfile, mapping_filename: &str, sample: Vec<Sample>) -> (out: Profile)
    requires
        ({
            let v = weighed(p@.samples, p@.weights, frames@.len());
            &&& sample@.len() == v.len()
            &&& forall|i: int| 0 <= i < sample@.len() ==> (#[trigger] sample@[i])@ == counted(v[i].0, (1, v[i].1))
            &&& forall|i: int, j: int|
                0 <= i < sample@.len() && 0 <= j < sample@[i].location_id@.len() ==> 1
                    <= #[trigger] sample@[i].location_id@[j] <= frames@.len()
        }),
    ensures
        out@ == speedscope_profile(frame_views(frames@), p@, mapping_filename@),
        profile_ok(out@),
{
    let (ty, unit) = speedscope_value_type(p.unit.as_str());
    let (mut t, fixed) = Tables::start("samples", "count", ty, unit, mapping_filename);
    let ghost start = t@;
    proof {
        lemma_start_tables("samples"@, "count"@, ty@, unit@, mapping_filename@);
    }
    table_frames(&mut t, frames);
    let ghost end = t@;
    let (string_table, function, location) = t.into_parts();
    proof {
        lemma_fixed_kept(start.strings, end.strings, "samples"@, "count"@, ty@, unit@, mapping_filename@);
    }
    let mut mapping: Vec<Mapping> = Vec::new();
    mapping.push(file_mapping_of(fixed.mapping));
    let duration: i64 = duration_nanos(round_difference(p.end_value, p.start_value), p.unit.as_str());
    let out = Profile {
        sample_type: fixed.types,
        sample,
        mapping,
        location,
        function,
        string_table,
        drop_frames: 0,
        keep_frames: 0,
        time_nanos: 0,
        duration_nanos: duration,
        period_type: Some(fixed.default_type),
        period: 1,
        comment: Vec::new(),
        default_sample_type: fixed.default_type.ty,
        doc_url: 0,
    };
    proof {
        let want = speedscope_profile(frame_views(frames@), p@, mapping_filename@);
        assert(out@.sample =~= want.sample);
        assert(out@ =~= want);
        assert forall|i: int| 0 <= i < out@.sample.len() implies sample_ok(#[trigger] out@.sample[i], out@) by {
            assert(out@.sample[i] == out.sample@[i]@);
        }
    }
    out
}

/// Converts one sampled profile of a Speedscope file into pprof.
pub fn import_file(file: &SpeedscopeFile, opts: &SpeedscopeImportOptions) -> (r: Result<EncodedPprof, SpeedscopeError>)
    ensures
        imported(file@, *opts, r),
{
    let n: usize = file.profiles.len();
    if opts.profile_index >= n {
        return Err(SpeedscopeError::ProfileIndex { index: opts.profile_index, profiles: n });
    }
    let p = &file.profiles[opts.profile_index];
    if !p.profile_type.as_str().eq("sampled") {
        return Err(SpeedscopeError::NotSampled);
    }
    let (sample, total) = match weigh(p, file.frames.len()) {
        Some(x) => x,
        None => {
            return Err(SpeedscopeError::Overflow);
        },
    };
    let samples: usize = sample.len();
    let out = build_profile(&file.frames, p, opts.mapping_filename.as_str(), sample);
    let stats = ImportStats { samples, locations: out.location.len(), total };
    match compress_profile(&out) {
        Ok(encoded) => Ok(EncodedPprof { encoded, stats }),
        Err(_) => Err(SpeedscopeError::Compress),
    }
}

} // verus!

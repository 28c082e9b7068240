//! Folded stacks, one per line: `root;child;leaf value`.
use vstd::prelude::*;
use vstd::slice::slice_subrange;
use crate::codec::profile_bytes;
use crate::float::{exact_digits, finite, is_finite, is_negative, negative, parse_bits, parsed_bits, round_magnitude,
    rounded_magnitude,};
use crate::frames::{
    enter_stacks, named_stack, named_stacks, stack_ids, stacks_entered, NamedFrame, NamedFrameView,
};
use crate::gz::{compress_profile, gzipped, loaded, LoadError};
use crate::num::{clamped, fits_i64, is_i64, saturating_product};
use crate::pool::text_id;
use crate::proto::{texts, Mapping, Profile, ProfileView, Sample};
use crate::tables::{
    lemma_fixed_kept, lemma_start_tables, one_mapping, only_mapping, profile_ok, sample_ok,
    sample_types, start_tables, Tables, TablesView,
};
use crate::tally::{counted, counted_sample, total};
use crate::text::{
    chars_of, last_index_of_space, last_space, lines, next_line, next_piece, split_on, string_of,
    trim, trimmed,
};

verus! {

/// Options for folded stack import.
#[derive(Debug)]
pub struct FoldedImportOptions {
    /// pprof sample type of the value column. Default `delay`.
    pub sample_type: String,
    /// pprof unit of the value column. Default `microseconds`.
    pub unit: String,
    /// File name of the mapping. Default `folded`.
    pub mapping_filename: String,
}

impl Default for FoldedImportOptions {
    fn default() -> (r: FoldedImportOptions)
        ensures
            r.sample_type@ == "delay"@,
            r.unit@ == "microseconds"@,
            r.mapping_filename@ == "folded"@,
    {
        FoldedImportOptions {
            sample_type: "delay".to_owned(),
            unit: "microseconds".to_owned(),
            mapping_filename: "folded".to_owned(),
        }
    }
}

/// Counts of what an import produced.
#[derive(Clone, Copy, Debug, PartialEq, Eq, Structural)]
pub struct ImportStats {
    /// Number of pprof samples.
    pub samples: usize,
    /// Number of pprof locations.
    pub locations: usize,
    /// Sum of the sample weights.
    pub total: i64,
}

/// An imported profile.
#[derive(Debug)]
pub struct EncodedPprof {
    /// gzip-compressed pprof protobuf.
    pub encoded: Vec<u8>,
    pub stats: ImportStats,
}

/// What is wrong with a line.
#[derive(Clone, Copy, Debug, PartialEq, Eq, Structural)]
pub enum LineError {
    /// There is no white space, so no value column.
    MissingValue,
    EmptyStack,
    /// The value is no number.
    InvalidValue,
    NotFinite,
    Negative,
    TooLarge,
    /// A frame between two semicolons is empty.
    EmptyFrame,
}

/// Why folded stacks were not imported.
#[derive(Clone, Copy, Debug, PartialEq, Eq, Structural)]
pub enum FoldedError {
    /// The first line, counted from 1, that is wrong.
    Line { line: usize, error: LineError },
    /// The sum of all values does not fit in 64 bits.
    Overflow,
    /// Compression failed.
    Compress,
}

/// One stack, root first, with its value.
#[derive(Debug)]
pub struct FoldedStack {
    pub frames: Vec<String>,
    pub value: i64,
}

/// The value of a [`FoldedStack`].
#[verifier::ext_equal]
pub struct FoldedStackView {
    pub frames: Seq<Seq<char>>,
    pub value: i64,
}

impl View for FoldedStack {
    type V = FoldedStackView;

    open spec fn view(&self) -> FoldedStackView {
        FoldedStackView { frames: texts(self.frames@), value: self.value }
    }
}

pub open spec fn stack_views(s: Seq<FoldedStack>) -> Seq<FoldedStackView> {
    Seq::new(s.len(), |i: int| s[i]@)
}

/// The two columns of a line. `None` where the line is empty or a comment.
pub open spec fn columns(line: Seq<char>) -> Result<Option<(Seq<char>, Seq<char>)>, LineError> {
    let t = trim(line);
    if t.len() == 0 || t[0] == '#' {
        Ok(None)
    } else {
        match last_space(t) {
            None => Err(LineError::MissingValue),
            Some(i) => if trim(t.take(i)).len() == 0 {
                Err(LineError::EmptyStack)
            } else {
                Ok(Some((trim(t.take(i)), trim(t.skip(i)))))
            },
        }
    }
}

/// A value column, given as a double precision bit pattern, rounded to an integer.
pub open spec fn value_of(bits: Option<u64>) -> Result<i64, LineError> {
    match bits {
        None => Err(LineError::InvalidValue),
        Some(b) => if !is_finite(b) {
            Err(LineError::NotFinite)
        } else if is_negative(b) {
            Err(LineError::Negative)
        } else if rounded_magnitude(b) > 0x8000_0000_0000_0000 {
            Err(LineError::TooLarge)
        } else {
            Ok(clamped(rounded_magnitude(b) as int))
        },
    }
}

/// The pieces without the white space around them. `None` where one is empty.
pub open spec fn trimmed_pieces(pieces: Seq<Seq<char>>) -> Option<Seq<Seq<char>>>
    decreases pieces.len(),
{
    if pieces.len() == 0 {
        Some(Seq::empty())
    } else {
        match trimmed_pieces(pieces.drop_last()) {
            None => None,
            Some(before) => if trim(pieces.last()).len() == 0 {
                None
            } else {
                Some(before.push(trim(pieces.last())))
            },
        }
    }
}

/// The frames of a stack column. `None` where one is empty.
pub open spec fn frames_of(stack: Seq<char>) -> Option<Seq<Seq<char>>> {
    trimmed_pieces(split_on(stack, ';'))
}

/// The stack on a line whose value column reads as `bits`.
pub open spec fn entry_of(stack: Seq<char>, bits: Option<u64>) -> Result<Option<FoldedStackView>, LineError> {
    match value_of(bits) {
        Err(e) => Err(e),
        Ok(v) => if v == 0 {
            Ok(None)
        } else {
            match frames_of(stack) {
                None => Err(LineError::EmptyFrame),
                Some(frames) => Ok(Some(FoldedStackView { frames, value: v })),
            }
        },
    }
}

/// The stack on a line. `None` where the line holds none, or one of no weight.
pub open spec fn line_entry(line: Seq<char>) -> Result<Option<FoldedStackView>, LineError> {
    match columns(line) {
        Err(e) => Err(e),
        Ok(None) => Ok(None),
        Ok(Some((stack, value))) => entry_of(stack, parsed_bits(value)),
    }
}

/// Whether the value of a line is read as it is written, where it is a whole number that a
/// double holds exactly.
pub open spec fn reads_exactly(line: Seq<char>) -> bool {
    columns(line) matches Ok(Some((stack, value))) ==> exact_digits(value) matches Some(n) ==> value_of(
        parsed_bits(value),
    ) == Ok::<i64, LineError>(n as i64)
}

/// The stacks of the lines, or the first line that is wrong.
pub open spec fn entries(ls: Seq<Seq<char>>) -> Result<Seq<FoldedStackView>, (int, LineError)>
    decreases ls.len(),
{
    if ls.len() == 0 {
        Ok(Seq::empty())
    } else {
        match entries(ls.drop_last()) {
            Err(e) => Err(e),
            Ok(before) => match line_entry(ls.last()) {
                Err(e) => Err((ls.len() as int, e)),
                Ok(None) => Ok(before),
                Ok(Some(entry)) => Ok(before.push(entry)),
            },
        }
    }
}

/// Splits a line into its stack and its value column.
pub fn split_columns(line: &[char]) -> (r: Result<Option<(String, String)>, LineError>)
    ensures
        match r {
            Err(e) => columns(line@) == Err::<Option<(Seq<char>, Seq<char>)>, LineError>(e),
            Ok(None) => columns(line@) == Ok::<Option<(Seq<char>, Seq<char>)>, LineError>(None),
            Ok(Some((stack, value))) => columns(line@) == Ok::<Option<(Seq<char>, Seq<char>)>, LineError>(
                Some((stack@, value@)),
            ),
        },
{
    let t = trimmed(line);
    let n: usize = t.len();
    if n == 0 || t[0] == '#' {
        return Ok(None);
    }
    match last_index_of_space(t) {
        None => Err(LineError::MissingValue),
        Some(i) => {
            let stack = trimmed(slice_subrange(t, 0, i));
            if stack.len() == 0 {
                return Err(LineError::EmptyStack);
            }
            let value = trimmed(slice_subrange(t, i, n));
            Ok(Some((string_of(stack), string_of(value))))
        },
    }
}

/// Rounds a value column, given as a double precision bit pattern.
pub fn round_value(bits: Option<u64>) -> (r: Result<i64, LineError>)
    ensures
        r == value_of(bits),
{
    let b: u64 = match bits {
        Some(b) => b,
        None => {
            return Err(LineError::InvalidValue);
        },
    };
    if !finite(b) {
        return Err(LineError::NotFinite);
    }
    if negative(b) {
        return Err(LineError::Negative);
    }
    match round_magnitude(b) {
        None => Err(LineError::TooLarge),
        Some(v) => if v > 0x8000_0000_0000_0000 {
            Err(LineError::TooLarge)
        } else if v == 0x8000_0000_0000_0000 {
            Ok(i64::MAX)
        } else {
            Ok(v as i64)
        },
    }
}

/// The frames of a stack column.
fn split_frames(stack: &[char]) -> (r: Option<Vec<String>>)
    ensures
        match r {
            Some(v) => frames_of(stack@) == Some(texts(v@)),
            None => frames_of(stack@) is None,
        },
{
    let ghost pieces = split_on(stack@, ';');
    let ghost mut done: Seq<Seq<char>> = Seq::empty();
    let mut out: Vec<String> = Vec::new();
    let mut rest: &[char] = stack;
    assert(texts(out@) =~= Seq::<Seq<char>>::empty());
    assert(done + split_on(rest@, ';') =~= pieces);
    loop
        invariant
            pieces == split_on(stack@, ';'),
            pieces == done + split_on(rest@, ';'),
            trimmed_pieces(done) == Some(texts(out@)),
        decreases rest@.len(),
    {
        let (piece, after) = next_piece(rest, ';');
        let ghost next = done.push(piece@);
        let frame = trimmed(piece);
        assert(next.drop_last() =~= done);
        if frame.len() == 0 {
            proof {
                assert(trimmed_pieces(next) is None);
                let tail = match after {
                    Some(a) => split_on(a@, ';'),
                    None => Seq::empty(),
                };
                assert(pieces =~= next + tail);
                lemma_pieces_fail(next, tail);
            }
            return None;
        }
        let ghost before = out@;
        out.push(string_of(frame));
        proof {
            assert(texts(out@) =~= texts(before).push(trim(piece@)));
        }
        match after {
            Some(a) => {
                assert(done + split_on(rest@, ';') =~= next + split_on(a@, ';'));
                rest = a;
                proof {
                    done = next;
                }
            },
            None => {
                assert(done + split_on(rest@, ';') =~= next);
                return Some(out);
            },
        }
    }
}

proof fn lemma_pieces_fail(a: Seq<Seq<char>>, b: Seq<Seq<char>>)
    requires
        trimmed_pieces(a) is None,
    ensures
        trimmed_pieces(a + b) is None,
    decreases b.len(),
{
    if b.len() == 0 {
        assert(a + b =~= a);
    } else {
        lemma_pieces_fail(a, b.drop_last());
        assert((a + b).drop_last() =~= a + b.drop_last());
    }
}

/// The stack on a line whose value column reads as `bits`.
pub fn read_entry(stack: &str, bits: Option<u64>) -> (r: Result<Option<FoldedStack>, LineError>)
    ensures
        match r {
            Err(e) => entry_of(stack@, bits) == Err::<Option<FoldedStackView>, LineError>(e),
            Ok(None) => entry_of(stack@, bits) == Ok::<Option<FoldedStackView>, LineError>(None),
            Ok(Some(f)) => entry_of(stack@, bits) == Ok::<Option<FoldedStackView>, LineError>(Some(f@)),
        },
{
    let value: i64 = match round_value(bits) {
        Ok(v) => v,
        Err(e) => {
            return Err(e);
        },
    };
    if value == 0 {
        return Ok(None);
    }
    let chars = chars_of(stack);
    match split_frames(chars.as_slice()) {
        Some(frames) => Ok(Some(FoldedStack { frames, value })),
        None => Err(LineError::EmptyFrame),
    }
}

fn parse_folded_line(line: &[char]) -> (r: Result<Option<FoldedStack>, LineError>)
    ensures
        match r {
            Err(e) => line_entry(line@) == Err::<Option<FoldedStackView>, LineError>(e),
            Ok(None) => line_entry(line@) == Ok::<Option<FoldedStackView>, LineError>(None),
            Ok(Some(f)) => line_entry(line@) == Ok::<Option<FoldedStackView>, LineError>(Some(f@)),
        },
        reads_exactly(line@),
{
    match split_columns(line) {
        Err(e) => Err(e),
        Ok(None) => Ok(None),
        Ok(Some((stack, value))) => read_entry(stack.as_str(), parse_bits(value.as_str())),
    }
}

proof fn lemma_entries_fail(a: Seq<Seq<char>>, b: Seq<Seq<char>>)
    requires
        entries(a) is Err,
    ensures
        entries(a + b) == entries(a),
    decreases b.len(),
{
    if b.len() == 0 {
        assert(a + b =~= a);
    } else {
        lemma_entries_fail(a, b.drop_last());
        assert((a + b).drop_last() =~= a + b.drop_last());
    }
}

/// Reads the stacks of a text.
pub fn parse_folded(input: &str) -> (r: Result<Vec<FoldedStack>, FoldedError>)
    ensures
        match entries(lines(input@)) {
            Ok(v) => r matches Ok(out) && stack_views(out@) == v,
            Err((n, error)) => r matches Err(FoldedError::Line { line, error: e }) && line == n && e == error,
        },
        r is Ok ==> forall|i: int| 0 <= i < lines(input@).len() ==> reads_exactly(#[trigger] lines(input@)[i]),
{
    let all = chars_of(input);
    let total_len: usize = all.len();
    let mut rest: &[char] = all.as_slice();
    let mut out: Vec<FoldedStack> = Vec::new();
    let mut line_no: usize = 0;
    let ghost mut read: Seq<Seq<char>> = Seq::empty();
    assert(read + lines(rest@) =~= lines(input@));
    assert(stack_views(out@) =~= Seq::<FoldedStackView>::empty());
    while rest.len() > 0
        invariant
            read + lines(rest@) == lines(input@),
            entries(read) == Ok::<Seq<FoldedStackView>, (int, LineError)>(stack_views(out@)),
            line_no == read.len(),
            line_no + rest@.len() <= total_len,
            forall|i: int| 0 <= i < read.len() ==> reads_exactly(#[trigger] read[i]),
        decreases rest@.len(),
    {
        let (line, after) = next_line(rest);
        let ghost next = read.push(line@);
        line_no += 1;
        proof {
            assert(next.drop_last() =~= read);
            assert(read + lines(rest@) =~= next + lines(after@));
        }
        match parse_folded_line(line) {
            Err(error) => {
                proof {
                    lemma_entries_fail(next, lines(after@));
                }
                return Err(FoldedError::Line { line: line_no, error });
            },
            Ok(None) => {},
            Ok(Some(f)) => {
                let ghost before = out@;
                out.push(f);
                assert(stack_views(out@) =~= stack_views(before).push(f@));
            },
        }
        rest = after;
        proof {
            read = next;
        }
    }
    assert(read + lines(rest@) =~= read);
    Ok(out)
}

/// Nanoseconds in a time unit, 0 for any other unit.
pub open spec fn unit_nanos(unit: Seq<char>) -> int {
    if unit == "nanoseconds"@ {
        1
    } else if unit == "microseconds"@ {
        1000
    } else if unit == "milliseconds"@ {
        1_000_000
    } else if unit == "seconds"@ {
        1_000_000_000
    } else {
        0
    }
}

/// `value` in nanoseconds, 0 where the unit is none of time.
pub fn duration_nanos(value: i64, unit: &str) -> (r: i64)
    ensures
        r == clamped(value * unit_nanos(unit@)),
{
    proof {
        assert(value * 0 == 0) by (nonlinear_arith);
    }
    if unit.eq("nanoseconds") {
        value
    } else if unit.eq("microseconds") {
        saturating_product(value, 1000)
    } else if unit.eq("milliseconds") {
        saturating_product(value, 1_000_000)
    } else if unit.eq("seconds") {
        saturating_product(value, 1_000_000_000)
    } else {
        0
    }
}

/// A frame that is known by its name alone.
pub open spec fn plain_frame(name: Seq<char>) -> NamedFrameView {
    NamedFrameView { key: name, name, system_name: name }
}

/// A stack, root first, of frames that are known by name.
pub open spec fn plain_stack(frames: Seq<Seq<char>>) -> Seq<NamedFrameView> {
    Seq::new(frames.len(), |i: int| plain_frame(frames[i]))
}

pub open spec fn plain_stacks(stacks: Seq<FoldedStackView>) -> Seq<Seq<NamedFrameView>> {
    Seq::new(stacks.len(), |i: int| plain_stack(stacks[i].frames))
}

/// The values of the stacks.
pub open spec fn stack_values(stacks: Seq<FoldedStackView>) -> Seq<i64> {
    Seq::new(stacks.len(), |i: int| stacks[i].value)
}

/// The tables of the stacks.
pub open spec fn folded_tables(stacks: Seq<FoldedStackView>, opts: FoldedImportOptions) -> TablesView {
    stacks_entered(
        start_tables("samples"@, "count"@, opts.sample_type@, opts.unit@, opts.mapping_filename@),
        plain_stacks(stacks),
    )
}

/// The pprof profile of folded stacks: one sample per stack, leaf first.
pub open spec fn folded_profile(stacks: Seq<FoldedStackView>, opts: FoldedImportOptions) -> ProfileView {
    let t = folded_tables(stacks, opts);
    let types = sample_types(t.strings, "samples"@, "count"@, opts.sample_type@, opts.unit@);
    ProfileView {
        sample_type: types,
        sample: Seq::new(
            stacks.len(),
            |i: int| counted(stack_ids(t.keys, plain_stack(stacks[i].frames)).reverse(), (1, stacks[i].value)),
        ),
        mapping: seq![only_mapping(text_id(t.strings, opts.mapping_filename@))],
        location: t.locations,
        function: t.functions,
        string_table: t.strings,
        drop_frames: 0,
        keep_frames: 0,
        time_nanos: 0,
        duration_nanos: clamped(total(stack_values(stacks)) * unit_nanos(opts.unit@)),
        period_type: Some(types[1]),
        period: 1,
        comment: Seq::empty(),
        default_sample_type: types[1].ty,
        doc_url: 0,
    }
}

/// The counts of an import.
pub open spec fn import_stats(p: ProfileView, total: int) -> ImportStats {
    ImportStats {
        samples: p.sample.len() as usize,
        locations: p.location.len() as usize,
        total: total as i64,
    }
}

/// What the import of these stacks gives.
pub open spec fn imported(
    stacks: Seq<FoldedStackView>,
    opts: FoldedImportOptions,
    r: Result<EncodedPprof, FoldedError>,
) -> bool {
    let sum = total(stack_values(stacks));
    let profile = folded_profile(stacks, opts);
    match r {
        Ok(e) => {
            &&& is_i64(sum)
            &&& profile_ok(profile)
            &&& gzipped(profile_bytes(profile)) == Some(e.encoded@)
            &&& loaded(e.encoded@) == Ok::<ProfileView, LoadError>(profile)
            &&& e.stats == import_stats(profile, sum)
        },
        Err(FoldedError::Overflow) => !is_i64(sum),
        Err(FoldedError::Compress) => is_i64(sum) && gzipped(profile_bytes(profile)) is None,
        Err(FoldedError::Line { .. }) => false,
    }
}

/// The stacks as named frames.
fn name_stacks(stacks: &Vec<FoldedStack>) -> (r: Vec<Vec<NamedFrame>>)
    ensures
        named_stacks(r@) == plain_stacks(stack_views(stacks@)),
{
    let ghost v = stack_views(stacks@);
    let mut r: Vec<Vec<NamedFrame>> = Vec::new();
    for i in 0..stacks.len()
        invariant
            v == stack_views(stacks@),
            r@.len() == i,
            forall|k: int| 0 <= k < i ==> named_stack((#[trigger] r@[k])@) == plain_stack(v[k].frames),
    {
        let frames = &stacks[i].frames;
        let mut one: Vec<NamedFrame> = Vec::new();
        for j in 0..frames.len()
            invariant
                one@.len() == j,
                forall|k: int| 0 <= k < j ==> (#[trigger] one@[k])@ == plain_frame(frames@[k]@),
        {
            let name = frames[j].clone();
            one.push(NamedFrame { key: name.clone(), name: name.clone(), system_name: name });
        }
        assert(named_stack(one@) =~= plain_stack(v[i as int].frames));
        r.push(one);
    }
    assert(named_stacks(r@) =~= plain_stacks(v));
    r
}

fn reversed(ids: &Vec<u64>) -> (r: Vec<u64>)
    ensures
        r@ == ids@.reverse(),
{
    let n: usize = ids.len();
    let mut r: Vec<u64> = Vec::new();
    for i in 0..n
        invariant
            n == ids@.len(),
            r@.len() == i,
            forall|k: int| 0 <= k < i ==> r@[k] == ids@[n - 1 - k],
    {
        r.push(ids[n - 1 - i]);
    }
    assert(r@ =~= ids@.reverse());
    r
}

/// The sum of the values. `None` where it does not fit in 64 bits.
fn sum_values(stacks: &Vec<FoldedStack>) -> (r: Option<i64>)
    ensures
        match r {
            Some(s) => total(stack_values(stack_views(stacks@))) == s,
            None => !is_i64(total(stack_values(stack_views(stacks@)))),
        },
{
    let ghost w = stack_values(stack_views(stacks@));
    let mut sum: i128 = 0;
    for i in 0..stacks.len()
        invariant
            w == stack_values(stack_views(stacks@)),
            sum == total(w.take(i as int)),
            -(i * 0x8000_0000_0000_0000) <= sum <= i * 0x8000_0000_0000_0000,
    {
        proof {
            assert(w.take(i + 1).drop_last() =~= w.take(i as int));
            assert(i * 0x8000_0000_0000_0000 < 0x7fff_ffff_ffff_ffff_ffff_ffff_ffff_ffff - 0x8000_0000_0000_0000)
                by (nonlinear_arith)
                requires
                    i < 0xffff_ffff_ffff_ffff,
            ;
        }
        sum = sum + stacks[i].value as i128;
    }
    assert(w.take(w.len() as int) =~= w);
    if fits_i64(sum) {
        Some(sum as i64)
    } else {
        None
    }
}

/// Converts folded stacks into a pprof profile.
pub fn stacks_to_pprof(stacks: &Vec<FoldedStack>, opts: &FoldedImportOptions) -> (r: Result<EncodedPprof, FoldedError>)
    ensures
        imported(stack_views(stacks@), *opts, r),
{
    let ghost v = stack_views(stacks@);
    let sum: i64 = match sum_values(stacks) {
        Some(s) => s,
        None => {
            return Err(FoldedError::Overflow);
        },
    };
    let (mut t, fixed) = Tables::start(
        "samples",
        "count",
        opts.sample_type.as_str(),
        opts.unit.as_str(),
        opts.mapping_filename.as_str(),
    );
    let ghost start = t@;
    proof {
        lemma_start_tables("samples"@, "count"@, opts.sample_type@, opts.unit@, opts.mapping_filename@);
    }
    let named = name_stacks(stacks);
    let ids = enter_stacks(&mut t, &named);
    let ghost end = t@;
    let mut sample: Vec<Sample> = Vec::new();
    for i in 0..stacks.len()
        invariant
            v == stack_views(stacks@),
            named_stacks(named@) == plain_stacks(v),
            ids@.len() == stacks@.len(),
            forall|i: int|
                0 <= i < ids@.len() ==> (#[trigger] ids@[i])@ == stack_ids(end.keys, named_stack(named@[i]@)),
            forall|i: int, j: int|
                0 <= i < ids@.len() && 0 <= j < ids@[i]@.len() ==> 1 <= #[trigger] ids@[i]@[j] <= end.locations.len(),
            sample@.len() == i,
            forall|k: int|
                0 <= k < i ==> (#[trigger] sample@[k])@ == counted(
                    stack_ids(end.keys, plain_stack(v[k].frames)).reverse(),
                    (1, v[k].value),
                ),
            forall|k: int, j: int|
                0 <= k < i && 0 <= j < sample@[k].location_id@.len() ==> 1 <= #[trigger] sample@[k].location_id@[j]
                    <= end.locations.len(),
    {
        let ghost done = sample@;
        let list = reversed(&ids[i]);
        let ghost list_v = list@;
        sample.push(counted_sample(list, (1, stacks[i].value)));
        proof {
            assert(named_stacks(named@).len() == plain_stacks(v).len());
            assert(named_stacks(named@)[i as int] == plain_stack(v[i as int].frames));
            assert(ids@[i as int]@ == stack_ids(end.keys, plain_stack(v[i as int].frames)));
            assert forall|k: int, j: int|
                0 <= k < i + 1 && 0 <= j < sample@[k].location_id@.len() implies 1
                <= #[trigger] sample@[k].location_id@[j] <= end.locations.len() by {
                if k < i {
                    assert(sample@[k] == done[k]);
                } else {
                    assert(sample@[k].location_id@ == list_v);
                    let m = ids@[i as int]@.len();
                    assert(list_v[j] == ids@[i as int]@[m - 1 - j]);
                }
            }
        }
    }
    let (string_table, function, location) = t.into_parts();
    proof {
        lemma_fixed_kept(
            start.strings,
            end.strings,
            "samples"@,
            "count"@,
            opts.sample_type@,
            opts.unit@,
            opts.mapping_filename@,
        );
    }
    let mut mapping: Vec<Mapping> = Vec::new();
    mapping.push(one_mapping(fixed.mapping));
    let stats = ImportStats { samples: sample.len(), locations: location.len(), total: sum };
    let p = Profile {
        sample_type: fixed.types,
        sample,
        mapping,
        location,
        function,
        string_table,
        drop_frames: 0,
        keep_frames: 0,
        time_nanos: 0,
        duration_nanos: duration_nanos(sum, opts.unit.as_str()),
        period_type: Some(fixed.default_type),
        period: 1,
        comment: Vec::new(),
        default_sample_type: fixed.default_type.ty,
        doc_url: 0,
    };
    proof {
        assert(p@.sample =~= folded_profile(v, *opts).sample);
        assert(p@ =~= folded_profile(v, *opts));
        assert(stats.locations == p.location@.len());
        assert forall|i: int| 0 <= i < p@.sample.len() implies sample_ok(#[trigger] p@.sample[i], p@) by {
            assert(p@.sample[i] == p.sample@[i]@);
        }
        assert(profile_ok(p@));
    }
    match compress_profile(&p) {
        Ok(encoded) => Ok(EncodedPprof { encoded, stats }),
        Err(_) => Err(FoldedError::Compress),
    }
}

/// Converts folded stack text into a pprof profile.
pub fn folded_to_pprof(input: &str, opts: &FoldedImportOptions) -> (r: Result<EncodedPprof, FoldedError>)
    ensures
        match entries(lines(input@)) {
            Ok(stacks) => imported(stacks, *opts, r),
            Err((n, error)) => r matches Err(FoldedError::Line { line, error: e }) && line == n && e == error,
        },
{
    match parse_folded(input) {
        Ok(stacks) => stacks_to_pprof(&stacks, opts),
        Err(e) => Err(e),
    }
}

} // verus!

//! Linux `perf script` text as pprof.
//!
//! Each sample is a header line followed by an indented call stack, leaf first, and
//! samples are separated by blank lines:
//!
//! ```text
//! main.exe 12345/12345    0.000000:    1000000 cpu-clock:
//!         ffff80008a9c0a3c some_function+0x10 (/path/to/lib.so)
//!         ffff80008a9c0b48 another_function+0x20 (/path/to/lib.so)
//! ```
//!
//! Samples are gathered by stack of resolved symbols, with a count and a sum of
//! periods per stack.
use vstd::prelude::*;
use vstd::slice::slice_subrange;
use crate::text::{
    chars_of, first_space, index_of_space, last_index, last_index_of_char, last_index_of_space,
    last_space, lines, next_line, parse_u64, parsed_u64, string_of, strip_trailing,
    stripped_trailing, trim, trim_end, trim_start, trimmed, trimmed_end, trimmed_start, is_space,
    space,
};

verus! {

/// Why a capture was not converted.
#[derive(Clone, Copy, Debug, PartialEq, Eq, Structural)]
pub enum ConvertError {
    /// A stack's count or its sum of periods does not fit in 64 bits.
    Overflow,
    /// Compression failed.
    Compress,
}

/// One resolved frame of a stack.
#[derive(Debug)]
pub struct Frame {
    /// Symbol name, `[unknown]` where perf could not resolve it.
    pub symbol: String,
    /// Path of the binary that holds the symbol. Empty where perf printed none.
    pub dso: String,
}

/// One sample.
#[derive(Debug)]
pub struct Sample {
    /// Frames as perf prints them, leaf first.
    pub stack: Vec<Frame>,
    /// Weight from the header line, 1 where perf left it out.
    pub period: u64,
}

/// The value of a [`Frame`].
pub struct FrameView {
    pub symbol: Seq<char>,
    pub dso: Seq<char>,
}

/// The value of a [`Sample`].
#[verifier::ext_equal]
pub struct SampleView {
    pub stack: Seq<FrameView>,
    pub period: u64,
}

impl View for Frame {
    type V = FrameView;

    open spec fn view(&self) -> FrameView {
        FrameView { symbol: self.symbol@, dso: self.dso@ }
    }
}

pub open spec fn frame_views(s: Seq<Frame>) -> Seq<FrameView> {
    Seq::new(s.len(), |i: int| s[i]@)
}

impl View for Sample {
    type V = SampleView;

    open spec fn view(&self) -> SampleView {
        SampleView { stack: frame_views(self.stack@), period: self.period }
    }
}

pub open spec fn sample_views(s: Seq<Sample>) -> Seq<SampleView> {
    Seq::new(s.len(), |i: int| s[i]@)
}

/// The word before the last one.
pub open spec fn penultimate_word(s: Seq<char>) -> Option<Seq<char>> {
    match last_space(s) {
        None => None,
        Some(i) => {
            let before = trim_end(s.take(i));
            if before.len() == 0 {
                None
            } else {
                match last_space(before) {
                    None => Some(before),
                    Some(j) => Some(before.skip(j + 1)),
                }
            }
        },
    }
}

/// The period in a header `<comm> <pid>/<tid> <ts>: <period> <event>:`: the word before
/// the event name, where that is a number.
pub open spec fn header_period(header: Seq<char>) -> Option<u64> {
    match penultimate_word(trim_end(strip_trailing(header, ':'))) {
        Some(w) => parsed_u64(w),
        None => None,
    }
}

/// The index of the last ` (`.
pub open spec fn last_open(s: Seq<char>) -> Option<int>
    decreases s.len(),
{
    if s.len() < 2 {
        None
    } else if s[s.len() - 2] == ' ' && s.last() == '(' {
        Some(s.len() - 2)
    } else {
        last_open(s.drop_last())
    }
}

/// A symbol without its trailing `+0x` offset.
pub open spec fn without_offset(s: Seq<char>) -> Seq<char> {
    match last_index(s, '+') {
        Some(i) => if i + 2 < s.len() && s[i + 1] == '0' && s[i + 2] == 'x' {
            s.take(i)
        } else {
            s
        },
        None => s,
    }
}

/// The frame on a trimmed line `<address> <symbol>[+0x<offset>][ (<dso>)]`. `None` where
/// nothing follows the address.
pub open spec fn frame_on(line: Seq<char>) -> Option<FrameView> {
    match first_space(line) {
        None => None,
        Some(i) => {
            let rest = trim_start(line.skip(i + 1));
            match last_open(rest) {
                Some(k) => Some(
                    FrameView {
                        symbol: without_offset(rest.take(k)),
                        dso: strip_trailing(rest.skip(k + 2), ')'),
                    },
                ),
                None => Some(FrameView { symbol: without_offset(rest), dso: Seq::empty() }),
            }
        },
    }
}

/// Where the reader of a capture stands: the samples that are complete, and the one
/// whose stack is being read.
pub struct Reading {
    pub done: Seq<SampleView>,
    pub current: Option<SampleView>,
}

/// The samples with the open one completed.
pub open spec fn flushed(r: Reading) -> Seq<SampleView> {
    match r.current {
        Some(s) => r.done.push(s),
        None => r.done,
    }
}

/// An empty line completes a sample, an indented one adds a frame to it, and any
/// other starts the next.
pub open spec fn line_read(r: Reading, line: Seq<char>) -> Reading {
    if line.len() == 0 {
        Reading { done: flushed(r), current: None }
    } else if is_space(line[0]) {
        match (r.current, frame_on(trim(line))) {
            (Some(s), Some(f)) => Reading {
                done: r.done,
                current: Some(SampleView { stack: s.stack.push(f), period: s.period }),
            },
            _ => r,
        }
    } else {
        Reading {
            done: flushed(r),
            current: Some(
                SampleView {
                    stack: Seq::empty(),
                    period: match header_period(line) {
                        Some(p) => p,
                        None => 1,
                    },
                },
            ),
        }
    }
}

/// What has been read after the given lines.
pub open spec fn lines_read(ls: Seq<Seq<char>>) -> Reading
    decreases ls.len(),
{
    if ls.len() == 0 {
        Reading { done: Seq::empty(), current: None }
    } else {
        line_read(lines_read(ls.drop_last()), ls.last())
    }
}

/// The samples of a capture.
pub open spec fn parsed(input: Seq<char>) -> Seq<SampleView> {
    flushed(lines_read(lines(input)))
}

fn parse_header_period(header: &[char]) -> (r: Option<u64>)
    ensures
        r == header_period(header@),
{
    let t = trimmed_end(stripped_trailing(header, ':'));
    match last_index_of_space(t) {
        None => None,
        Some(i) => {
            let before = trimmed_end(slice_subrange(t, 0, i));
            if before.len() == 0 {
                return None;
            }
            let n: usize = before.len();
            match last_index_of_space(before) {
                None => parse_u64(before),
                Some(j) => parse_u64(slice_subrange(before, j + 1, n)),
            }
        },
    }
}

fn find_last_open(s: &[char]) -> (r: Option<usize>)
    ensures
        match r {
            Some(k) => last_open(s@) == Some(k as int) && k + 2 <= s@.len(),
            None => last_open(s@) is None,
        },
{
    let mut n: usize = s.len();
    assert(s@.take(n as int) =~= s@);
    while n >= 2
        invariant
            n <= s@.len(),
            last_open(s@.take(n as int)) == last_open(s@),
        decreases n,
    {
        if s[n - 2] == ' ' && s[n - 1] == '(' {
            return Some(n - 2);
        }
        assert(s@.take(n as int).drop_last() =~= s@.take(n - 1));
        n -= 1;
    }
    None
}

fn symbol_text(s: &[char]) -> (r: String)
    ensures
        r@ == without_offset(s@),
{
    if let Some(i) = last_index_of_char(s, '+') {
        if s.len() - i > 2 && s[i + 1] == '0' && s[i + 2] == 'x' {
            return string_of(slice_subrange(s, 0, i));
        }
    }
    string_of(s)
}

fn parse_frame(line: &[char]) -> (r: Option<Frame>)
    ensures
        match r {
            Some(f) => frame_on(line@) == Some(f@),
            None => frame_on(line@) is None,
        },
{
    let n: usize = line.len();
    let at: usize = match index_of_space(line) {
        Some(i) => i,
        None => {
            return None;
        },
    };
    let rest = trimmed_start(slice_subrange(line, at + 1, n));
    let len: usize = rest.len();
    match find_last_open(rest) {
        Some(k) => {
            let tail = slice_subrange(rest, k + 2, len);
            Some(
                Frame {
                    symbol: symbol_text(slice_subrange(rest, 0, k)),
                    dso: string_of(stripped_trailing(tail, ')')),
                },
            )
        },
        None => {
            let dso = String::new();
            assert(dso@ =~= Seq::<char>::empty());
            Some(Frame { symbol: symbol_text(rest), dso })
        },
    }
}

spec fn reading(done: Seq<Sample>, current: Option<Sample>) -> Reading {
    Reading {
        done: sample_views(done),
        current: match current {
            Some(s) => Some(s@),
            None => None,
        },
    }
}

/// Parses the text that `perf script` prints.
pub fn parse(input: &str) -> (r: Result<Vec<Sample>, ConvertError>)
    ensures
        r matches Ok(samples) && sample_views(samples@) == parsed(input@),
{
    let all = chars_of(input);
    let mut rest: &[char] = all.as_slice();
    let mut samples: Vec<Sample> = Vec::new();
    let mut current: Option<Sample> = None;
    let ghost mut read: Seq<Seq<char>> = Seq::empty();
    proof {
        assert(read + lines(rest@) =~= lines(input@));
        assert(reading(samples@, current).done =~= Seq::<SampleView>::empty());
    }
    while rest.len() > 0
        invariant
            read + lines(rest@) == lines(input@),
            reading(samples@, current) == lines_read(read),
        decreases rest@.len(),
    {
        let (line, after) = next_line(rest);
        let ghost before = reading(samples@, current);
        proof {
            assert(read + lines(rest@) =~= read.push(line@) + lines(after@));
            assert(read.push(line@).drop_last() =~= read);
            read = read.push(line@);
        }
        if line.len() == 0 {
            if let Some(s) = current {
                let ghost done = samples@;
                samples.push(s);
                assert(sample_views(samples@) =~= sample_views(done).push(s@));
            }
            current = None;
        } else if space(line[0]) {
            if let Some(s) = current {
                let mut s = s;
                let ghost stack = s.stack@;
                if let Some(f) = parse_frame(trimmed(line)) {
                    s.stack.push(f);
                    assert(s@.stack =~= frame_views(stack).push(f@));
                }
                current = Some(s);
            }
        } else {
            if let Some(s) = current {
                let ghost done = samples@;
                samples.push(s);
                assert(sample_views(samples@) =~= sample_views(done).push(s@));
            }
            let period: u64 = match parse_header_period(line) {
                Some(p) => p,
                None => 1,
            };
            let fresh = Sample { stack: Vec::new(), period };
            assert(fresh@.stack =~= Seq::<FrameView>::empty());
            current = Some(fresh);
        }
        assert(reading(samples@, current) == line_read(before, line@));
        rest = after;
    }
    assert(read + lines(rest@) =~= read);
    if let Some(s) = current {
        let ghost done = samples@;
        samples.push(s);
        assert(sample_views(samples@) =~= sample_views(done).push(s@));
    }
    Ok(samples)
}

/// Labels of the second sample type, and whether symbols are demangled.
pub struct ConvertOptions {
    /// The `type` of the second sample type. Default `cpu`.
    pub event_type: String,
    /// The `unit` of the second sample type. Default `nanoseconds`.
    pub event_unit: String,
    /// Keep symbols as they are.
    pub no_demangle: bool,
}

impl Default for ConvertOptions {
    fn default() -> (r: ConvertOptions)
        ensures
            r.event_type@ == "cpu"@,
            r.event_unit@ == "nanoseconds"@,
            !r.no_demangle,
    {
        ConvertOptions {
            event_type: "cpu".to_owned(),
            event_unit: "nanoseconds".to_owned(),
            no_demangle: false,
        }
    }
}

/// Diagnostics over a parsed capture.
#[derive(Clone, Copy, Debug, Default, PartialEq, Eq, Structural)]
pub struct Stats {
    pub sample_count: usize,
    pub frame_count: usize,
    pub unknown_frame_count: usize,
    pub period_sum: u64,
    /// How many samples have the period 1.
    pub unit_period_count: usize,
}

/// The number of frames in all stacks.
pub open spec fn frame_total(s: Seq<SampleView>) -> nat
    decreases s.len(),
{
    if s.len() == 0 {
        0
    } else {
        frame_total(s.drop_last()) + s.last().stack.len()
    }
}

/// The sum of all periods.
pub open spec fn period_total(s: Seq<SampleView>) -> nat
    decreases s.len(),
{
    if s.len() == 0 {
        0
    } else {
        period_total(s.drop_last()) + s.last().period as nat
    }
}

/// The number of samples that have the period 1.
pub open spec fn unit_periods(s: Seq<SampleView>) -> nat
    decreases s.len(),
{
    if s.len() == 0 {
        0
    } else {
        unit_periods(s.drop_last()) + if s.last().period == 1 {
            1nat
        } else {
            0
        }
    }
}

/// Where all samples are counted, each has the period 1.
pub proof fn law_unit_periods(s: Seq<SampleView>)
    ensures
        unit_periods(s) <= s.len(),
        unit_periods(s) == s.len() <==> forall|i: int| 0 <= i < s.len() ==> (#[trigger] s[i]).period == 1,
    decreases s.len(),
{
    if s.len() > 0 {
        let front = s.drop_last();
        law_unit_periods(front);
        if forall|i: int| 0 <= i < s.len() ==> (#[trigger] s[i]).period == 1 {
            assert forall|i: int| 0 <= i < front.len() implies (#[trigger] front[i]).period == 1 by {
                assert(s[i].period == 1);
            }
            assert(s[s.len() - 1].period == 1);
        }
        if unit_periods(s) == s.len() {
            assert forall|i: int| 0 <= i < s.len() implies (#[trigger] s[i]).period == 1 by {
                if i < front.len() {
                    assert(front[i].period == 1);
                }
            }
        }
    }
}

/// An empty symbol, or perf's placeholder.
pub open spec fn unresolved(symbol: Seq<char>) -> bool {
    symbol.len() == 0 || symbol == "[unknown]"@
}

/// The number of frames in a stack without a symbol.
pub open spec fn unresolved_in(s: Seq<FrameView>) -> nat
    decreases s.len(),
{
    if s.len() == 0 {
        0
    } else {
        unresolved_in(s.drop_last()) + if unresolved(s.last().symbol) {
            1nat
        } else {
            0
        }
    }
}

/// The number of frames in all stacks without a symbol.
pub open spec fn unresolved_total(s: Seq<SampleView>) -> nat
    decreases s.len(),
{
    if s.len() == 0 {
        0
    } else {
        unresolved_total(s.drop_last()) + unresolved_in(s.last().stack)
    }
}

fn is_unresolved(symbol: &str) -> (r: bool)
    ensures
        r == unresolved(symbol@),
{
    symbol.is_empty() || symbol.eq("[unknown]")
}

fn count_unresolved(stack: &Vec<Frame>) -> (n: usize)
    ensures
        n == unresolved_in(frame_views(stack@)),
        n <= stack@.len(),
{
    let mut n: usize = 0;
    let ghost v = frame_views(stack@);
    for i in 0..stack.len()
        invariant
            v == frame_views(stack@),
            n == unresolved_in(v.take(i as int)),
            n <= i,
    {
        assert(v.take(i + 1).drop_last() =~= v.take(i as int));
        if is_unresolved(stack[i].symbol.as_str()) {
            n += 1;
        }
    }
    assert(v.take(v.len() as int) =~= v);
    n
}

proof fn lemma_totals_grow(s: Seq<SampleView>, n: int)
    requires
        0 <= n <= s.len(),
    ensures
        frame_total(s.take(n)) <= frame_total(s),
        period_total(s.take(n)) <= period_total(s),
    decreases s.len() - n,
{
    if n < s.len() {
        lemma_totals_grow(s, n + 1);
        assert(s.take(n + 1).drop_last() =~= s.take(n));
    } else {
        assert(s.take(n) =~= s);
    }
}

/// Whether these are the diagnostics of a capture.
pub open spec fn counts(t: Stats, s: Seq<SampleView>) -> bool {
    &&& t.sample_count == s.len()
    &&& t.frame_count == frame_total(s)
    &&& t.unknown_frame_count == unresolved_total(s)
    &&& t.period_sum == period_total(s)
    &&& t.unit_period_count == unit_periods(s)
}

/// Whether every sample may have the reader's fallback of 1 for a period.
pub open spec fn lacks_periods(t: Stats) -> bool {
    t.sample_count > 0 && t.unit_period_count == t.sample_count
}

proof fn lemma_totals_add(a: Seq<SampleView>, b: Seq<SampleView>)
    ensures
        frame_total(a + b) == frame_total(a) + frame_total(b),
        unresolved_total(a + b) == unresolved_total(a) + unresolved_total(b),
        period_total(a + b) == period_total(a) + period_total(b),
        unit_periods(a + b) == unit_periods(a) + unit_periods(b),
    decreases b.len(),
{
    if b.len() == 0 {
        assert(a + b =~= a);
    } else {
        assert((a + b).drop_last() =~= a + b.drop_last());
        lemma_totals_add(a, b.drop_last());
    }
}

proof fn lemma_unresolved_in(s: Seq<FrameView>)
    ensures
        unresolved_in(s) <= s.len(),
    decreases s.len(),
{
    if s.len() > 0 {
        lemma_unresolved_in(s.drop_last());
    }
}

proof fn lemma_unresolved_total(s: Seq<SampleView>)
    ensures
        unresolved_total(s) <= frame_total(s),
    decreases s.len(),
{
    if s.len() > 0 {
        lemma_unresolved_total(s.drop_last());
        lemma_unresolved_in(s.last().stack);
    }
}

/// The diagnostics of two captures together are those of each added up, those of no samples
/// are zero, and no more frames lack a symbol than there are.
pub proof fn law_stats_add_up(a: Seq<SampleView>, b: Seq<SampleView>, x: Stats, y: Stats, z: Stats)
    requires
        counts(x, a),
        counts(y, b),
        counts(z, a + b),
    ensures
        z.sample_count == x.sample_count + y.sample_count,
        z.frame_count == x.frame_count + y.frame_count,
        z.unknown_frame_count == x.unknown_frame_count + y.unknown_frame_count,
        z.period_sum == x.period_sum + y.period_sum,
        z.unit_period_count == x.unit_period_count + y.unit_period_count,
        a.len() == 0 ==> x.sample_count == 0 && x.frame_count == 0 && x.unknown_frame_count == 0 && x.period_sum == 0,
        z.unknown_frame_count <= z.frame_count,
{
    lemma_totals_add(a, b);
    lemma_unresolved_total(a + b);
}

/// The periods of a capture are likely missing exactly where it has samples and each has the
/// period 1.
pub proof fn law_lacks_periods(s: Seq<SampleView>, t: Stats)
    requires
        counts(t, s),
    ensures
        lacks_periods(t) <==> s.len() > 0 && forall|i: int| 0 <= i < s.len() ==> (#[trigger] s[i]).period == 1,
{
    law_unit_periods(s);
}

impl Stats {
    /// The diagnostics of a capture whose totals can be counted.
    pub fn from_samples(samples: &[Sample]) -> (r: Stats)
        requires
            frame_total(sample_views(samples@)) <= usize::MAX,
            period_total(sample_views(samples@)) <= u64::MAX,
        ensures
            counts(r, sample_views(samples@)),
    {
        let ghost v = sample_views(samples@);
        let mut frame_count: usize = 0;
        let mut unknown_frame_count: usize = 0;
        let mut period_sum: u64 = 0;
        let mut unit_period_count: usize = 0;
        for i in 0..samples.len()
            invariant
                v == sample_views(samples@),
                frame_total(v) <= usize::MAX,
                period_total(v) <= u64::MAX,
                frame_count == frame_total(v.take(i as int)),
                unknown_frame_count == unresolved_total(v.take(i as int)),
                unknown_frame_count <= frame_count,
                period_sum == period_total(v.take(i as int)),
                unit_period_count == unit_periods(v.take(i as int)),
                unit_period_count <= i,
        {
            proof {
                assert(v.take(i + 1).drop_last() =~= v.take(i as int));
                lemma_totals_grow(v, i + 1);
            }
            let s = &samples[i];
            frame_count += s.stack.len();
            period_sum += s.period;
            if s.period == 1 {
                unit_period_count += 1;
            }
            unknown_frame_count += count_unresolved(&s.stack);
        }
        assert(v.take(v.len() as int) =~= v);
        Stats { sample_count: samples.len(), frame_count, unknown_frame_count, period_sum, unit_period_count }
    }

    /// Whether every sample has the period 1, the reader's fallback: a hint that the capture
    /// lacks the weights.
    pub fn period_likely_missing(&self) -> (r: bool)
        ensures
            r == lacks_periods(*self),
    {
        self.sample_count > 0 && self.unit_period_count == self.sample_count
    }
}

/// What a capture is likely to lack.
#[derive(Clone, Copy, Debug, PartialEq, Eq, Structural)]
pub enum Warning {
    /// No sample was read.
    NoSamples,
    /// Every sample has the period 1.
    NoPeriods,
    /// Most frames have no name.
    Unknown,
}

/// What a capture with these counts is likely to lack.
pub open spec fn warnings_of(s: Stats) -> Seq<Warning> {
    if s.sample_count == 0 {
        seq![Warning::NoSamples]
    } else {
        (if s.unit_period_count == s.sample_count {
            seq![Warning::NoPeriods]
        } else {
            Seq::empty()
        }) + (if s.frame_count > 0 && 2 * s.unknown_frame_count > s.frame_count {
            seq![Warning::Unknown]
        } else {
            Seq::empty()
        })
    }
}

impl Stats {
    /// What the capture is likely to lack.
    pub fn warnings(&self) -> (r: Vec<Warning>)
        ensures
            r@ == warnings_of(*self),
    {
        let mut r: Vec<Warning> = Vec::new();
        if self.sample_count == 0 {
            r.push(Warning::NoSamples);
            assert(r@ =~= warnings_of(*self));
            return r;
        }
        if self.period_likely_missing() {
            r.push(Warning::NoPeriods);
        }
        if self.frame_count > 0 && self.unknown_frame_count > self.frame_count / 2 {
            r.push(Warning::Unknown);
        }
        assert(r@ =~= warnings_of(*self));
        r
    }
}

} // verus!

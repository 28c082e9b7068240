//! How a frame is turned into names, and how a sample is weighed. Producers differ in
//! both.
use vstd::prelude::*;
use crate::firefox_model::{entry, position, string_entry, FirefoxProfile, Thread};
use crate::double::{nearest_nanos, round_nanos};
use crate::float::{is_positive, nearest_i64, round_nearest};
use crate::num::is_i64;

verus! {

/// One frame of a location. A location has several where calls were inlined, leaf
/// first.
#[derive(Debug)]
pub struct ResolvedFrame {
    /// Name as the producer gave it.
    pub name: String,
    /// Source file, empty if unknown.
    pub file: String,
    /// Source line, 0 if unknown.
    pub line: i64,
    /// Index of the owning module.
    pub mapping_index: usize,
    /// Address within the owning module.
    pub address: u64,
}

/// The value of a [`ResolvedFrame`].
#[verifier::ext_equal]
pub struct ResolvedFrameView {
    pub name: Seq<char>,
    pub file: Seq<char>,
    pub line: i64,
    pub mapping_index: usize,
    pub address: u64,
}

impl View for ResolvedFrame {
    type V = ResolvedFrameView;

    open spec fn view(&self) -> ResolvedFrameView {
        ResolvedFrameView {
            name: self.name@,
            file: self.file@,
            line: self.line,
            mapping_index: self.mapping_index,
            address: self.address,
        }
    }
}

pub open spec fn resolved_views(s: Seq<ResolvedFrame>) -> Seq<ResolvedFrameView> {
    Seq::new(s.len(), |i: int| s[i]@)
}

/// One weighed sample.
#[derive(Clone, Copy, Debug, PartialEq, Eq, Structural)]
pub struct ResolvedSample {
    /// The stack, `None` where the sample is to be skipped.
    pub stack: Option<i64>,
    pub count: i64,
    /// CPU time.
    pub ns: i64,
}

/// Turns frames into names.
pub trait FrameResolver: Sized {
    /// Whether the tables hold what the frame refers to.
    spec fn can(&self, profile: FirefoxProfile, thread: Thread, frame_idx: i64) -> bool;

    /// The names of a frame, leaf first.
    spec fn names(&self, profile: FirefoxProfile, thread: Thread, frame_idx: i64) -> Seq<ResolvedFrameView>;

    /// Whether the tables hold what the frame refers to.
    fn can_resolve(&self, profile: &FirefoxProfile, thread: &Thread, frame_idx: i64) -> (r: bool)
        ensures
            r == self.can(*profile, *thread, frame_idx),
    ;

    /// The names of a frame, leaf first.
    fn resolve(&self, profile: &FirefoxProfile, thread: &Thread, frame_idx: i64) -> (r: Vec<ResolvedFrame>)
        requires
            self.can(*profile, *thread, frame_idx),
        ensures
            resolved_views(r@) == self.names(*profile, *thread, frame_idx),
    ;
}

/// Weighs samples.
pub trait SampleResolver: Sized {
    /// Whether the sample's time fits in 64 bits.
    spec fn can(&self, profile: FirefoxProfile, thread: Thread, i: usize) -> bool;

    /// The weighed sample.
    spec fn weighed(&self, profile: FirefoxProfile, thread: Thread, i: usize) -> ResolvedSample;

    /// Whether the sample's time fits in 64 bits.
    fn can_resolve(&self, profile: &FirefoxProfile, thread: &Thread, i: usize) -> (r: bool)
        ensures
            r == self.can(*profile, *thread, i),
    ;

    /// The weighed sample.
    fn resolve(&self, profile: &FirefoxProfile, thread: &Thread, i: usize) -> (r: ResolvedSample)
        requires
            self.can(*profile, *thread, i),
        ensures
            r == self.weighed(*profile, *thread, i),
    ;
}

/// Takes names from the function table, for producers that put them there. Each frame
/// is one name.
#[derive(Clone, Copy, Debug)]
pub struct FuncTableResolver;

/// The function of a frame, where both are in their tables.
pub open spec fn frame_function(t: Thread, frame_idx: i64) -> Option<i64> {
    match entry(t.frame_table.func@, frame_idx) {
        Some(f) => if 0 <= f < t.func_table.name@.len() {
            Some(f)
        } else {
            None
        },
        None => None,
    }
}

/// What a list of optional entries holds at an index.
pub open spec fn flat_entry(s: Seq<Option<i64>>, i: i64) -> Option<i64> {
    match entry(s, i) {
        Some(x) => x,
        None => None,
    }
}

/// The source file of a function, empty if unknown.
pub open spec fn function_file(t: Thread, func: i64) -> Seq<char> {
    match flat_entry(t.func_table.file_name@, func) {
        Some(s) => match string_entry(t.string_array@, s) {
            Some(text) => text,
            None => Seq::empty(),
        },
        None => Seq::empty(),
    }
}

/// The address of a frame, 0 where it has none.
pub open spec fn frame_address(t: Thread, frame_idx: i64) -> u64 {
    match entry(t.frame_table.address@, frame_idx) {
        Some(a) => if a > 0 {
            a as u64
        } else {
            0
        },
        None => 0,
    }
}

/// The name of a frame by the function table.
pub open spec fn table_frame(t: Thread, frame_idx: i64) -> ResolvedFrameView {
    let func = frame_function(t, frame_idx).unwrap();
    ResolvedFrameView {
        name: match string_entry(t.string_array@, t.func_table.name@[func as int]) {
            Some(text) => text,
            None => "(anonymous)"@,
        },
        file: function_file(t, func),
        line: match flat_entry(t.frame_table.line@, frame_idx) {
            Some(n) => n,
            None => 0,
        },
        mapping_index: 0,
        address: frame_address(t, frame_idx),
    }
}

/// The address of a frame, 0 where it has none.
pub(crate) fn address_of(t: &Thread, frame_idx: i64) -> (r: u64)
    ensures
        r == frame_address(*t, frame_idx),
{
    match position(frame_idx, t.frame_table.address.len()) {
        Some(i) => if t.frame_table.address[i] > 0 {
            t.frame_table.address[i] as u64
        } else {
            0
        },
        None => 0,
    }
}

/// What a list of optional entries holds at an index.
fn flat_entry_of(s: &Vec<Option<i64>>, i: i64) -> (r: Option<i64>)
    ensures
        r == flat_entry(s@, i),
{
    match position(i, s.len()) {
        Some(k) => s[k],
        None => None,
    }
}

fn file_of(t: &Thread, func: i64) -> (r: String)
    ensures
        r@ == function_file(*t, func),
{
    if let Some(s) = flat_entry_of(&t.func_table.file_name, func) {
        if let Some(k) = position(s, t.string_array.len()) {
            return t.string_array[k].clone();
        }
    }
    let r = String::new();
    assert(r@ =~= Seq::<char>::empty());
    r
}

fn function_of(t: &Thread, frame_idx: i64) -> (r: Option<i64>)
    ensures
        r == frame_function(*t, frame_idx),
{
    match position(frame_idx, t.frame_table.func.len()) {
        Some(i) => {
            let f: i64 = t.frame_table.func[i];
            match position(f, t.func_table.name.len()) {
                Some(_) => Some(f),
                None => None,
            }
        },
        None => None,
    }
}

impl FrameResolver for FuncTableResolver {
    open spec fn can(&self, profile: FirefoxProfile, thread: Thread, frame_idx: i64) -> bool {
        frame_function(thread, frame_idx) is Some
    }

    open spec fn names(&self, profile: FirefoxProfile, thread: Thread, frame_idx: i64) -> Seq<ResolvedFrameView> {
        seq![table_frame(thread, frame_idx)]
    }

    fn can_resolve(&self, profile: &FirefoxProfile, thread: &Thread, frame_idx: i64) -> (r: bool) {
        function_of(thread, frame_idx).is_some()
    }

    fn resolve(&self, profile: &FirefoxProfile, thread: &Thread, frame_idx: i64) -> (r: Vec<ResolvedFrame>) {
        let mut r: Vec<ResolvedFrame> = Vec::new();
        let func: i64 = match function_of(thread, frame_idx) {
            Some(f) => f,
            None => 0,
        };
        let at: usize = match position(func, thread.func_table.name.len()) {
            Some(k) => k,
            None => 0,
        };
        let name = match position(thread.func_table.name[at], thread.string_array.len()) {
            Some(k) => thread.string_array[k].clone(),
            None => "(anonymous)".to_owned(),
        };
        let line: i64 = match flat_entry_of(&thread.frame_table.line, frame_idx) {
            Some(n) => n,
            None => 0,
        };
        r.push(
            ResolvedFrame {
                name,
                file: file_of(thread, func),
                line,
                mapping_index: 0,
                address: address_of(thread, frame_idx),
            },
        );
        assert(resolved_views(r@) =~= seq![table_frame(*thread, frame_idx)]);
        r
    }
}

/// How samples are weighed.
#[derive(Clone, Copy, Debug, PartialEq, Eq, Structural)]
pub enum SampleWeighting {
    /// The same time for each count of a sample.
    FixedInterval { interval_ns: i64 },
    /// The time since the previous sample, or the default where that is missing or not
    /// above zero.
    PerSampleTimeDeltas { default_interval_ns: i64 },
}

/// The count of a sample: its rounded weight, 1 where it has none.
pub open spec fn sample_count(t: Thread, i: usize) -> i64 {
    if i < t.samples.weight@.len() {
        nearest_i64(t.samples.weight@[i as int])
    } else {
        1
    }
}

/// The stack of a sample.
pub open spec fn sample_stack(t: Thread, i: usize) -> Option<i64> {
    if i < t.samples.stack@.len() {
        t.samples.stack@[i as int]
    } else {
        None
    }
}

/// The time of a sample.
pub open spec fn sample_ns(w: SampleWeighting, t: Thread, i: usize) -> int {
    match w {
        SampleWeighting::FixedInterval { interval_ns } => sample_count(t, i) * interval_ns,
        SampleWeighting::PerSampleTimeDeltas { default_interval_ns } => if i < t.samples.time_deltas@.len()
            && is_positive(t.samples.time_deltas@[i as int].bits) {
            nearest_nanos(t.samples.time_deltas@[i as int].bits) as int
        } else {
            default_interval_ns as int
        },
    }
}

/// The count of a sample.
pub(crate) fn count_of_sample(t: &Thread, i: usize) -> (r: i64)
    ensures
        r == sample_count(*t, i),
{
    if i < t.samples.weight.len() {
        round_nearest(t.samples.weight[i])
    } else {
        1
    }
}

/// The stack of a sample.
pub(crate) fn stack_of_sample(t: &Thread, i: usize) -> (r: Option<i64>)
    ensures
        r == sample_stack(*t, i),
{
    if i < t.samples.stack.len() {
        t.samples.stack[i]
    } else {
        None
    }
}

fn ns_of_sample(w: SampleWeighting, t: &Thread, i: usize) -> (r: i128)
    ensures
        r == sample_ns(w, *t, i),
{
    match w {
        SampleWeighting::FixedInterval { interval_ns } => {
            let c: i64 = count_of_sample(t, i);
            assert(-0x4000_0000_0000_0000_0000_0000_0000_0000 <= c * interval_ns
                <= 0x4000_0000_0000_0000_0000_0000_0000_0000) by (nonlinear_arith)
                requires
                    -0x8000_0000_0000_0000 <= c <= 0x7fff_ffff_ffff_ffff,
                    -0x8000_0000_0000_0000 <= interval_ns <= 0x7fff_ffff_ffff_ffff,
            ;
            c as i128 * interval_ns as i128
        },
        SampleWeighting::PerSampleTimeDeltas { default_interval_ns } => {
            if i < t.samples.time_deltas.len() {
                let dt = t.samples.time_deltas[i];
                if 0 < dt.bits && dt.bits <= 0x7ff0_0000_0000_0000 {
                    return round_nanos(dt.bits) as i128;
                }
            }
            default_interval_ns as i128
        },
    }
}

impl SampleResolver for SampleWeighting {
    open spec fn can(&self, profile: FirefoxProfile, thread: Thread, i: usize) -> bool {
        is_i64(sample_ns(*self, thread, i))
    }

    open spec fn weighed(&self, profile: FirefoxProfile, thread: Thread, i: usize) -> ResolvedSample {
        ResolvedSample {
            stack: sample_stack(thread, i),
            count: sample_count(thread, i),
            ns: sample_ns(*self, thread, i) as i64,
        }
    }

    fn can_resolve(&self, profile: &FirefoxProfile, thread: &Thread, i: usize) -> (r: bool) {
        let ns: i128 = ns_of_sample(*self, thread, i);
        i64::MIN as i128 <= ns && ns <= i64::MAX as i128
    }

    fn resolve(&self, profile: &FirefoxProfile, thread: &Thread, i: usize) -> (r: ResolvedSample) {
        ResolvedSample {
            stack: stack_of_sample(thread, i),
            count: count_of_sample(thread, i),
            ns: ns_of_sample(*self, thread, i) as i64,
        }
    }
}

} // verus!

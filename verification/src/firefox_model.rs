//! The Firefox Profiler's processed profiles, as far as CPU samples go.
use vstd::prelude::*;

verus! {

/// A time in milliseconds, as a double precision bit pattern.
#[derive(Clone, Copy, Debug, PartialEq, Eq, Structural)]
pub struct Millis {
    pub bits: u64,
}

/// Profile-wide metadata.
#[derive(Clone, Copy, Debug, PartialEq, Eq, Structural)]
pub struct Meta {
    /// Nominal sampling interval.
    pub interval: Millis,
    /// Start time since the Unix epoch.
    pub start_time: Millis,
}

/// One millisecond.
pub open spec fn one_ms() -> Millis {
    Millis { bits: 0x3ff0_0000_0000_0000 }
}

/// No time.
pub open spec fn zero_ms() -> Millis {
    Millis { bits: 0 }
}

impl Default for Meta {
    fn default() -> (r: Meta)
        ensures
            r.interval == one_ms(),
            r.start_time == zero_ms(),
    {
        Meta {
            interval: Millis { bits: 0x3ff0_0000_0000_0000 },
            start_time: Millis { bits: 0 },
        }
    }
}

/// One loaded module.
#[derive(Debug)]
pub struct Lib {
    /// Display name.
    pub name: String,
    /// Name that symbol tables are found under. Empty in wasmtime's profiles.
    pub debug_name: String,
}

/// Frames, one per index.
#[derive(Debug)]
pub struct FrameTable {
    pub length: usize,
    /// Function of each frame.
    pub func: Vec<i64>,
    /// Address inside the owning module.
    pub address: Vec<i64>,
    /// Source line, if known.
    pub line: Vec<Option<i64>>,
}

/// Functions, one per index.
#[derive(Debug)]
pub struct FuncTable {
    pub length: usize,
    /// String index of each function's name.
    pub name: Vec<i64>,
    /// String index of the source file, if known.
    pub file_name: Vec<Option<i64>>,
    /// Resource of each function.
    pub resource: Vec<i64>,
}

/// Stacks, each a frame on top of another stack.
#[derive(Debug)]
pub struct StackTable {
    pub length: usize,
    /// The stack below, if any.
    pub prefix: Vec<Option<i64>>,
    /// The frame on top.
    pub frame: Vec<i64>,
}

/// Samples, one per index.
#[derive(Debug)]
pub struct Samples {
    pub length: usize,
    /// The stack, if one was captured.
    pub stack: Vec<Option<i64>>,
    /// Time since the previous sample.
    pub time_deltas: Vec<Millis>,
    /// Multiplier of the sample's count, as a double precision bit pattern.
    pub weight: Vec<u64>,
}

/// Resources, one per index.
#[derive(Debug)]
pub struct ResourceTable {
    pub length: usize,
    /// Module of each resource.
    pub lib: Vec<i64>,
}

/// One sampled thread.
#[derive(Debug)]
pub struct Thread {
    pub frame_table: FrameTable,
    pub func_table: FuncTable,
    pub stack_table: StackTable,
    pub samples: Samples,
    pub string_array: Vec<String>,
    pub resource_table: Option<ResourceTable>,
}

/// A profile.
#[derive(Debug)]
pub struct FirefoxProfile {
    pub libs: Vec<Lib>,
    pub threads: Vec<Thread>,
    pub meta: Meta,
}

/// The entry at an index, if there is one.
pub open spec fn entry<T>(s: Seq<T>, i: i64) -> Option<T> {
    if 0 <= i < s.len() {
        Some(s[i as int])
    } else {
        None
    }
}

/// The string at an index, if there is one.
pub open spec fn string_entry(s: Seq<String>, i: i64) -> Option<Seq<char>> {
    if 0 <= i < s.len() {
        Some(s[i as int]@)
    } else {
        None
    }
}

/// An index as a position in a list of this length.
pub(crate) fn position(i: i64, len: usize) -> (r: Option<usize>)
    ensures
        match r {
            Some(k) => k == i && k < len,
            None => !(0 <= i < len),
        },
{
    if i < 0 || i as u64 >= len as u64 {
        None
    } else {
        Some(i as usize)
    }
}

} // verus!

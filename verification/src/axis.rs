//! Which of a profile's values a summary is about, and how it is shown.
use vstd::prelude::*;
use crate::proto::{string_at, text_at, Profile, ProfileView};
use crate::text::{append_signed, signed_dec};

verus! {

/// How the values of an axis are shown.
#[derive(Clone, Copy, Debug)]
pub enum AxisKind {
    /// Times, divided by `div` and shown under a label.
    Time { div: u64, label: &'static str },
    /// Bytes, shown in the largest unit that fits.
    Bytes,
    /// Counts, shown under a label.
    Count(&'static str),
}

/// The axis of a summary.
#[derive(Clone, Copy, Debug)]
pub struct ValueAxis {
    /// Which of the sample types ranks the functions.
    pub idx: usize,
    pub kind: AxisKind,
    /// The sample type that is shown beside it.
    pub secondary_idx: Option<usize>,
    /// Whether the profile is one of allocations.
    pub is_heap: bool,
}

/// The names of the sample types and of their units.
pub open spec fn type_names(p: ProfileView) -> Seq<(Seq<char>, Seq<char>)> {
    Seq::new(
        p.sample_type.len(),
        |i: int| (text_at(p.string_table, p.sample_type[i].ty), text_at(p.string_table, p.sample_type[i].unit)),
    )
}

/// The first sample type of a kind.
pub open spec fn first_type(t: Seq<(Seq<char>, Seq<char>)>, f: spec_fn((Seq<char>, Seq<char>)) -> bool) -> Option<
    usize,
>
    decreases t.len(),
{
    if t.len() == 0 {
        None
    } else {
        match first_type(t.drop_last(), f) {
            Some(i) => Some(i),
            None => if f(t.last()) {
                Some((t.len() - 1) as usize)
            } else {
                None
            },
        }
    }
}

/// A sample type of bytes.
pub open spec fn is_space(t: (Seq<char>, Seq<char>)) -> bool {
    t.0 == "alloc_space"@ || t.0 == "inuse_space"@ || t.0 == "space"@
}

/// A sample type of objects.
pub open spec fn is_objects(t: (Seq<char>, Seq<char>)) -> bool {
    t.0 == "alloc_objects"@ || t.0 == "inuse_objects"@ || t.0 == "objects"@
}

/// The names of sample types that are times.
pub open spec fn is_time(ty: Seq<char>) -> bool {
    ||| ty == "cpu"@
    ||| ty == "wall"@
    ||| ty == "delay"@
    ||| ty == "latency"@
    ||| ty == "block"@
    ||| ty == "blocked"@
    ||| ty == "off_cpu"@
    ||| ty == "wait"@
}

/// How a unit of time is shown, if it is known.
pub open spec fn time_kind(unit: Seq<char>) -> Option<AxisKind> {
    if unit == "nanoseconds"@ {
        Some(AxisKind::Time { div: 1_000_000, label: "ms" })
    } else if unit == "microseconds"@ {
        Some(AxisKind::Time { div: 1_000, label: "ms" })
    } else if unit == "milliseconds"@ {
        Some(AxisKind::Time { div: 1, label: "ms" })
    } else if unit == "count"@ {
        Some(AxisKind::Count("samples"))
    } else {
        None
    }
}

/// A sample type of times whose unit is known.
pub open spec fn is_timed(t: (Seq<char>, Seq<char>)) -> bool {
    is_time(t.0) && time_kind(t.1) is Some
}

/// The axis of a profile. Bytes go before objects, those before times, and the first
/// sample type stands in where there is none of these.
pub open spec fn axis_of(p: ProfileView) -> ValueAxis {
    let t = type_names(p);
    match first_type(t, |x: (Seq<char>, Seq<char>)| is_space(x)) {
        Some(idx) => ValueAxis {
            idx,
            kind: AxisKind::Bytes,
            secondary_idx: first_type(t, |x: (Seq<char>, Seq<char>)| is_objects(x)),
            is_heap: true,
        },
        None => match first_type(t, |x: (Seq<char>, Seq<char>)| is_objects(x)) {
            Some(idx) => ValueAxis { idx, kind: AxisKind::Count("allocs"), secondary_idx: None, is_heap: true },
            None => match first_type(t, |x: (Seq<char>, Seq<char>)| is_timed(x)) {
                Some(idx) => ValueAxis {
                    idx,
                    kind: time_kind(t[idx as int].1).unwrap(),
                    secondary_idx: None,
                    is_heap: false,
                },
                None => ValueAxis { idx: 0, kind: AxisKind::Count("units"), secondary_idx: None, is_heap: false },
            },
        },
    }
}

/// Whether a sample type is one of times.
pub fn is_time_sample_type(ty: &str) -> (r: bool)
    ensures
        r == is_time(ty@),
{
    ty.eq("cpu") || ty.eq("wall") || ty.eq("delay") || ty.eq("latency") || ty.eq("block") || ty.eq("blocked")
        || ty.eq("off_cpu") || ty.eq("wait")
}

fn time_kind_of(unit: &str) -> (r: Option<AxisKind>)
    ensures
        r == time_kind(unit@),
{
    if unit.eq("nanoseconds") {
        Some(AxisKind::Time { div: 1_000_000, label: "ms" })
    } else if unit.eq("microseconds") {
        Some(AxisKind::Time { div: 1_000, label: "ms" })
    } else if unit.eq("milliseconds") {
        Some(AxisKind::Time { div: 1, label: "ms" })
    } else if unit.eq("count") {
        Some(AxisKind::Count("samples"))
    } else {
        None
    }
}

proof fn lemma_first_type(t: Seq<(Seq<char>, Seq<char>)>, f: spec_fn((Seq<char>, Seq<char>)) -> bool, n: int)
    requires
        0 <= n <= t.len(),
        first_type(t.take(n), f) is Some,
    ensures
        first_type(t, f) == first_type(t.take(n), f),
    decreases t.len(),
{
    if n < t.len() {
        assert(t.drop_last().take(n) =~= t.take(n));
        lemma_first_type(t.drop_last(), f, n);
    } else {
        assert(t.take(n) =~= t);
    }
}

/// The axis of a profile.
pub fn value_axis(p: &Profile) -> (r: ValueAxis)
    ensures
        r == axis_of(p@),
{
    let ghost t = type_names(p@);
    let ghost space = |x: (Seq<char>, Seq<char>)| is_space(x);
    let ghost objects = |x: (Seq<char>, Seq<char>)| is_objects(x);
    let ghost timed = |x: (Seq<char>, Seq<char>)| is_timed(x);
    let n: usize = p.sample_type.len();
    let mut alloc_space_idx: Option<usize> = None;
    let mut alloc_objects_idx: Option<usize> = None;
    proof {
        // A name of bytes is none of objects.
        reveal_strlit("alloc_space");
        reveal_strlit("inuse_space");
        reveal_strlit("space");
        reveal_strlit("alloc_objects");
        reveal_strlit("inuse_objects");
        reveal_strlit("objects");
        assert("alloc_space"@.last() == 'e' && "inuse_space"@.last() == 'e' && "space"@.last() == 'e');
        assert("alloc_objects"@.last() == 's' && "inuse_objects"@.last() == 's' && "objects"@.last() == 's');
    }
    for i in 0..n
        invariant
            n == p.sample_type@.len(),
            t == type_names(p@),
            space == |x: (Seq<char>, Seq<char>)| is_space(x),
            objects == |x: (Seq<char>, Seq<char>)| is_objects(x),
            forall|x: (Seq<char>, Seq<char>)| is_space(x) ==> !is_objects(x),
            alloc_space_idx == first_type(t.take(i as int), space),
            alloc_objects_idx == first_type(t.take(i as int), objects),
    {
        proof {
            assert(t.take(i + 1).drop_last() =~= t.take(i as int));
            assert(t.take(i + 1).last() == t[i as int]);
        }
        let ty = string_at(p, p.sample_type[i].ty);
        assert(ty@ == t[i as int].0);
        if ty.eq("alloc_space") || ty.eq("inuse_space") || ty.eq("space") {
            assert(is_space(t[i as int]));
            if alloc_space_idx.is_none() {
                alloc_space_idx = Some(i);
            }
        } else if ty.eq("alloc_objects") || ty.eq("inuse_objects") || ty.eq("objects") {
            assert(is_objects(t[i as int]));
            if alloc_objects_idx.is_none() {
                alloc_objects_idx = Some(i);
            }
        }
    }
    assert(t.take(n as int) =~= t);
    if let Some(idx) = alloc_space_idx {
        return ValueAxis { idx, kind: AxisKind::Bytes, secondary_idx: alloc_objects_idx, is_heap: true };
    }
    if let Some(idx) = alloc_objects_idx {
        return ValueAxis { idx, kind: AxisKind::Count("allocs"), secondary_idx: None, is_heap: true };
    }
    for i in 0..n
        invariant
            n == p.sample_type@.len(),
            t == type_names(p@),
            timed == |x: (Seq<char>, Seq<char>)| is_timed(x),
            first_type(t, |x: (Seq<char>, Seq<char>)| is_space(x)) is None,
            first_type(t, |x: (Seq<char>, Seq<char>)| is_objects(x)) is None,
            first_type(t.take(i as int), timed) is None,
    {
        proof {
            assert(t.take(i + 1).drop_last() =~= t.take(i as int));
            assert(t.take(i + 1).last() == t[i as int]);
        }
        let ty = string_at(p, p.sample_type[i].ty);
        let unit = string_at(p, p.sample_type[i].unit);
        if is_time_sample_type(ty) {
            if let Some(kind) = time_kind_of(unit) {
                proof {
                    assert(first_type(t.take(i + 1), timed) == Some(i));
                    lemma_first_type(t, timed, i + 1);
                }
                return ValueAxis { idx: i, kind, secondary_idx: None, is_heap: false };
            }
        }
    }
    ValueAxis { idx: 0, kind: AxisKind::Count("units"), secondary_idx: None, is_heap: false }
}

/// The axis of a profile of processor or wall-clock time.
#[derive(Clone, Copy, Debug)]
pub struct CpuAxis {
    pub idx: usize,
    /// The label under which values are shown.
    pub unit: &'static str,
    /// What values are divided by.
    pub div: u64,
}

/// The label and the divisor of a unit.
pub open spec fn cpu_unit(unit: Seq<char>) -> Option<(&'static str, u64)> {
    if unit == "nanoseconds"@ {
        Some(("ms", 1_000_000))
    } else if unit == "microseconds"@ {
        Some(("ms", 1_000))
    } else if unit == "milliseconds"@ {
        Some(("ms", 1))
    } else if unit == "count"@ {
        Some(("samples", 1))
    } else {
        None
    }
}

/// A sample type of processor or wall-clock time whose unit is known.
pub open spec fn is_cpu(t: (Seq<char>, Seq<char>)) -> bool {
    (t.0 == "cpu"@ || t.0 == "wall"@) && cpu_unit(t.1) is Some
}

/// The axis of a profile of times. The first sample type stands in, as nanoseconds, where
/// there is none.
pub open spec fn cpu_axis_of(p: ProfileView) -> CpuAxis {
    let t = type_names(p);
    match first_type(t, |x: (Seq<char>, Seq<char>)| is_cpu(x)) {
        Some(idx) => CpuAxis { idx, unit: cpu_unit(t[idx as int].1).unwrap().0, div: cpu_unit(t[idx as int].1).unwrap().1 },
        None => CpuAxis { idx: 0, unit: "ns", div: 1 },
    }
}

fn cpu_unit_of(unit: &str) -> (r: Option<(&'static str, u64)>)
    ensures
        r == cpu_unit(unit@),
{
    if unit.eq("nanoseconds") {
        Some(("ms", 1_000_000))
    } else if unit.eq("microseconds") {
        Some(("ms", 1_000))
    } else if unit.eq("milliseconds") {
        Some(("ms", 1))
    } else if unit.eq("count") {
        Some(("samples", 1))
    } else {
        None
    }
}

/// The axis of a profile of times.
pub fn cpu_axis(p: &Profile) -> (r: CpuAxis)
    ensures
        r == cpu_axis_of(p@),
{
    let ghost t = type_names(p@);
    let ghost cpu = |x: (Seq<char>, Seq<char>)| is_cpu(x);
    let n: usize = p.sample_type.len();
    for i in 0..n
        invariant
            n == p.sample_type@.len(),
            t == type_names(p@),
            cpu == |x: (Seq<char>, Seq<char>)| is_cpu(x),
            first_type(t.take(i as int), cpu) is None,
    {
        proof {
            assert(t.take(i + 1).drop_last() =~= t.take(i as int));
            assert(t.take(i + 1).last() == t[i as int]);
        }
        let ty = string_at(p, p.sample_type[i].ty);
        if ty.eq("cpu") || ty.eq("wall") {
            if let Some((unit, div)) = cpu_unit_of(string_at(p, p.sample_type[i].unit)) {
                proof {
                    assert(first_type(t.take(i + 1), cpu) == Some(i));
                    lemma_first_type(t, cpu, i + 1);
                }
                return CpuAxis { idx: i, unit, div };
            }
        }
    }
    assert(t.take(n as int) =~= t);
    CpuAxis { idx: 0, unit: "ns", div: 1 }
}

impl AxisKind {
    /// How many columns a value takes.
    pub fn width(&self) -> (r: usize)
        ensures
            r == if self is Bytes {
                11usize
            } else {
                12
            },
    {
        match self {
            AxisKind::Time { .. } => 12,
            AxisKind::Bytes => 11,
            AxisKind::Count(_) => 12,
        }
    }
}

/// A count under its label.
pub fn count_text(raw: i64, label: &str) -> (r: String)
    ensures
        r@ == signed_dec(raw as int) + " "@ + label@,
{
    let mut out = String::new();
    append_signed(&mut out, raw);
    out.append(" ");
    out.append(label);
    assert(out@ =~= signed_dec(raw as int) + " "@ + label@);
    out
}

/// A difference of counts under its label. Its sign is always shown.
pub fn count_change_text(raw: i64, label: &str) -> (r: String)
    ensures
        r@ == (if raw < 0 {
            Seq::empty()
        } else {
            "+"@
        }) + signed_dec(raw as int) + " "@ + label@,
{
    let mut out = String::new();
    if raw >= 0 {
        out.append("+");
    }
    append_signed(&mut out, raw);
    out.append(" ");
    out.append(label);
    assert(out@ =~= (if raw < 0 {
        Seq::<char>::empty()
    } else {
        "+"@
    }) + signed_dec(raw as int) + " "@ + label@);
    out
}

/// The units in which bytes are shown.
#[derive(Clone, Copy, Debug, PartialEq, Eq, Structural)]
pub enum ByteUnit {
    Bytes,
    Kilobytes,
    Megabytes,
    Gigabytes,
}

impl ByteUnit {
    /// How many bytes the unit is.
    pub open spec fn bytes(&self) -> int {
        match self {
            ByteUnit::Bytes => 1,
            ByteUnit::Kilobytes => 1024,
            ByteUnit::Megabytes => 0x10_0000,
            ByteUnit::Gigabytes => 0x4000_0000,
        }
    }

    /// How many bytes the unit is.
    pub fn size(&self) -> (r: u64)
        ensures
            r == self.bytes(),
    {
        match self {
            ByteUnit::Bytes => 1,
            ByteUnit::Kilobytes => 1024,
            ByteUnit::Megabytes => 1024 * 1024,
            ByteUnit::Gigabytes => 1024 * 1024 * 1024,
        }
    }

    /// The text behind the number.
    pub fn suffix(&self) -> (r: &'static str)
        ensures
            r@ == match self {
                ByteUnit::Bytes => "B"@,
                ByteUnit::Kilobytes => "kB"@,
                ByteUnit::Megabytes => "MB"@,
                ByteUnit::Gigabytes => "GB"@,
            },
    {
        match self {
            ByteUnit::Bytes => "B",
            ByteUnit::Kilobytes => "kB",
            ByteUnit::Megabytes => "MB",
            ByteUnit::Gigabytes => "GB",
        }
    }
}

/// The magnitude of a number.
pub open spec fn magnitude(raw: i64) -> int {
    if raw < 0 {
        -raw
    } else {
        raw as int
    }
}

/// The unit in which a number of bytes is shown: the largest that it reaches.
pub fn byte_unit(raw: i64) -> (r: ByteUnit)
    ensures
        r.bytes() <= magnitude(raw) || r == ByteUnit::Bytes,
        magnitude(raw) < 1024 * r.bytes() || r == ByteUnit::Gigabytes,
{
    let abs: i128 = if raw < 0 {
        -(raw as i128)
    } else {
        raw as i128
    };
    if abs < 1024 {
        ByteUnit::Bytes
    } else if abs < 1024 * 1024 {
        ByteUnit::Kilobytes
    } else if abs < 1024 * 1024 * 1024 {
        ByteUnit::Megabytes
    } else {
        ByteUnit::Gigabytes
    }
}

} // verus!

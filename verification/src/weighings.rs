//! How numbers are rounded, and what samples and writes amount to.
use vstd::prelude::*;
use vstd::arithmetic::div_mod::lemma_fundamental_div_mod;
use vstd::arithmetic::power2::{lemma2_to64, lemma_pow2_pos, lemma_pow2_unfold, pow2};
use crate::axis::{cpu_axis_of, first_type, is_cpu, type_names};
use crate::choices::{is_first, is_none, lemma_first_type, lemma_units_apart, type_of, unit_of};
use crate::cli::syms_path;
use crate::double::{excess, lemma_53_exact, nearest_nanos, to_53, whole_nanos};
use crate::firefox_model::{FirefoxProfile, Thread};
use crate::float::{
    exponent, exponent_field, is_finite, is_one_or_more, is_positive, nearest_i64, nearest_of, rounded, significand,
    whole_of,
};
use crate::host::gathered;
use crate::native::le_value;
use crate::proto::ProfileView;
use crate::relink::ends;
use crate::resolver::{sample_count, sample_ns, sample_stack, table_frame, SampleResolver, SampleWeighting};
use crate::samply::{looked_up, owner, samply_names, SamplySymsView};
use crate::stream::{le_bytes, lemma_four};
use crate::text::hex;

verus! {

/// Rounding gives the nearest integer, and the upper one of two that are equally near. Cutting
/// gives the largest one that is not above.
pub proof fn law_rounding(m: nat, k: nat)
    requires
        k > 0,
    ensures
        ({
            let p = pow2(k) as int;
            let near = nearest_of(m, -(k as int)) as int;
            let cut = whole_of(m, -(k as int)) as int;
            &&& 2 * (near * p - m) <= p
            &&& 2 * (m - near * p) < p
            &&& cut * p <= m < (cut + 1) * p
        }),
        nearest_of(m, 0) == m,
        nearest_of(m, k as int) == m * pow2(k),
        whole_of(m, k as int) == m * pow2(k),
{
    let p = pow2(k) as int;
    let h = pow2((k - 1) as nat) as int;
    lemma_pow2_pos(k);
    lemma_pow2_unfold(k);
    lemma2_to64();
    assert(p == 2 * h);
    assert(pow2(0) == 1);
    assert(nearest_of(m, 0) == m * pow2(0));
    lemma_fundamental_div_mod(m + h, p);
    lemma_fundamental_div_mod(m as int, p);
    let near = (m + h) / p;
    let cut = m as int / p;
    assert(near * p == p * near) by (nonlinear_arith);
    assert(cut * p == p * cut) by (nonlinear_arith);
    assert((cut + 1) * p == cut * p + p) by (nonlinear_arith);
}

/// A number is rounded to the multiple of a power of two that is nearest, where that power is
/// the least one that leaves 53 bits, and to the even multiple of two that are equally near.
pub proof fn law_53_bits(n: nat)
    ensures
        ({
            let p = pow2(excess(n)) as int;
            let q = to_53(n) as int / p;
            &&& to_53(n) == q * p
            &&& -p <= 2 * (to_53(n) - n) <= p
            &&& (2 * (to_53(n) - n) == p || 2 * (n - to_53(n)) == p) ==> q % 2 == 0
            &&& n < 0x20_0000_0000_0000 * p
            &&& excess(n) > 0 ==> n >= 0x10_0000_0000_0000 * p
        }),
        n < 0x20_0000_0000_0000 ==> to_53(n) == n,
{
    let k = excess(n);
    let p = pow2(k) as int;
    let q0 = n as int / p;
    let r = n as int % p;
    lemma_pow2_pos(k);
    lemma2_to64();
    lemma_fundamental_div_mod(n as int, p);
    lemma_excess_bounds(n);
    assert(p * q0 == q0 * p) by (nonlinear_arith);
    assert((q0 + 1) * p == q0 * p + p) by (nonlinear_arith);
    vstd::arithmetic::div_mod::lemma_div_multiples_vanish(q0, p);
    vstd::arithmetic::div_mod::lemma_div_multiples_vanish(q0 + 1, p);
    assert((q0 * p) / p == q0 && ((q0 + 1) * p) / p == q0 + 1) by {
        assert(p * (q0 + 1) == (q0 + 1) * p) by (nonlinear_arith);
    }
    if n < 0x20_0000_0000_0000 {
        assert(k == 0);
        assert(p == 1);
    }
}

proof fn lemma_excess_bounds(n: nat)
    ensures
        n < 0x20_0000_0000_0000 * pow2(excess(n)),
        excess(n) > 0 ==> n >= 0x10_0000_0000_0000 * pow2(excess(n)),
    decreases n,
{
    lemma2_to64();
    if n >= 0x20_0000_0000_0000 {
        lemma_excess_bounds(n / 2);
        lemma_pow2_unfold(excess(n));
        if excess(n / 2) == 0 {
            assert(pow2(excess(n)) == 2);
        }
    }
}

/// A whole number of milliseconds that is not too large is a million times as many
/// nanoseconds.
pub proof fn law_whole_millis(bits: u64, n: nat)
    requires
        crate::double::is_exactly(bits, n as int),
        bits < 0x8000_0000_0000_0000,
        n * 1_000_000 < 0x20_0000_0000_0000,
    ensures
        nearest_nanos(bits) == n * 1_000_000,
        whole_nanos(bits) == n * 1_000_000,
{
    let e = exponent(bits);
    let s = significand(bits);
    let m = n * 1_000_000;
    if e >= 0 {
        let p = pow2(e as nat);
        lemma_pow2_pos(e as nat);
        assert(s * p == n);
        assert(s * 1_000_000 <= m && (s * 1_000_000) * p == m) by (nonlinear_arith)
            requires
                s * p == n,
                p >= 1,
                m == n * 1_000_000,
        ;
        law_53_bits(s * 1_000_000);
    } else {
        let k = (-e) as nat;
        let p = pow2(k);
        lemma_pow2_pos(k);
        lemma_pow2_unfold(k);
        assert(s == n * p);
        assert(s * 1_000_000 == m * p) by (nonlinear_arith)
            requires
                s == n * p,
                m == n * 1_000_000,
        ;
        lemma_53_exact(m, k);
        law_rounding(m * p, k);
        lemma_divided(m as int, p as int);
        let near = nearest_of(m * p, e) as int;
        assert(near == m) by (nonlinear_arith)
            requires
                2 * (near * p - m * p) <= p,
                2 * (m * p - near * p) < p,
                p >= 1,
        ;
    }
}

proof fn lemma_divided(m: int, p: int)
    requires
        p > 0,
    ensures
        (m * p) / p == m,
{
    vstd::arithmetic::div_mod::lemma_div_multiples_vanish(m, p);
    assert(p * m == m * p) by (nonlinear_arith);
}

/// A number with the next larger exponent is twice as large, and one with the sign bit is as
/// far below zero. Integers of 53 bits stand in the fraction.
pub proof fn law_doubles(bits: u64, n: nat)
    requires
        bits < 0x8000_0000_0000_0000,
        0x10_0000_0000_0000 <= n < 0x20_0000_0000_0000,
    ensures
        1 <= exponent_field(bits) < 0x7fe ==> significand((bits + 0x10_0000_0000_0000) as u64) == significand(bits)
            && exponent((bits + 0x10_0000_0000_0000) as u64) == exponent(bits) + 1,
        is_finite(bits) ==> rounded((bits + 0x8000_0000_0000_0000) as u64) == -rounded(bits),
        rounded((0x4320_0000_0000_0000 + n) as u64) == n,
        nearest_i64(0x7ff0_0000_0000_0000) == i64::MAX,
        nearest_i64(0xfff0_0000_0000_0000) == i64::MIN,
        nearest_i64(0x7ff8_0000_0000_0000) == 0,
{
    let c = (bits + 0x8000_0000_0000_0000) as u64;
    assert(c as int % 0x10_0000_0000_0000 == bits as int % 0x10_0000_0000_0000);
    assert((c as int / 0x10_0000_0000_0000) % 0x800 == (bits as int / 0x10_0000_0000_0000) % 0x800);
    let d = (0x4320_0000_0000_0000 + n) as u64;
    assert(d as int / 0x10_0000_0000_0000 == 0x433);
    assert(d as int % 0x10_0000_0000_0000 == n - 0x10_0000_0000_0000);
    lemma2_to64();
    assert(n * pow2(0) == n);
    if 1 <= exponent_field(bits) < 0x7fe {
        let b = (bits + 0x10_0000_0000_0000) as u64;
        assert(b as int % 0x10_0000_0000_0000 == bits as int % 0x10_0000_0000_0000);
        assert(b as int / 0x10_0000_0000_0000 == bits as int / 0x10_0000_0000_0000 + 1);
    }
}

/// What a sample weighs: its count at equal distances, and its own time where it has one.
pub proof fn law_sample_weight(p: FirefoxProfile, t: Thread, i: usize, ns: i64, even: SampleWeighting, own: SampleWeighting)
    requires
        even == (SampleWeighting::FixedInterval { interval_ns: ns }),
        own == (SampleWeighting::PerSampleTimeDeltas { default_interval_ns: ns }),
    ensures
        i < t.samples.weight@.len() ==> sample_count(t, i) == nearest_i64(t.samples.weight@[i as int]),
        i >= t.samples.weight@.len() ==> sample_count(t, i) == 1,
        i < t.samples.stack@.len() ==> sample_stack(t, i) == t.samples.stack@[i as int],
        i >= t.samples.stack@.len() ==> sample_stack(t, i) is None,
        sample_ns(even, t, i) == ns * sample_count(t, i),
        i < t.samples.time_deltas@.len() && is_positive(t.samples.time_deltas@[i as int].bits) ==> sample_ns(own, t, i)
            == nearest_nanos(t.samples.time_deltas@[i as int].bits),
        i >= t.samples.time_deltas@.len() ==> sample_ns(own, t, i) == ns,
        even.weighed(p, t, i).stack == sample_stack(t, i),
        even.weighed(p, t, i).count == sample_count(t, i),
        own.weighed(p, t, i).stack == sample_stack(t, i),
        own.weighed(p, t, i).count == sample_count(t, i),
{
    assert(ns * sample_count(t, i) == sample_count(t, i) * ns) by (nonlinear_arith);
}

/// A frame of the function table: the name and the file of its function, and its own line.
pub proof fn law_table_frame(t: Thread, i: int, f: int, n: int)
    requires
        0 <= i < t.frame_table.func@.len(),
        i <= i64::MAX,
        t.frame_table.func@[i] == f,
        0 <= f < t.func_table.name@.len(),
        t.func_table.name@[f] == n,
        0 <= n < t.string_array@.len(),
    ensures
        table_frame(t, i as i64).name == t.string_array@[n]@,
        i < t.frame_table.line@.len() ==> (t.frame_table.line@[i] matches Some(l) ==> table_frame(t, i as i64).line == l),
        f < t.func_table.file_name@.len() ==> (t.func_table.file_name@[f] matches Some(s) ==> (0 <= s
            < t.string_array@.len() ==> table_frame(t, i as i64).file == t.string_array@[s as int]@)),
        i < t.frame_table.address@.len() && t.frame_table.address@[i] > 0 ==> table_frame(t, i as i64).address
            == t.frame_table.address@[i],
{
}

/// The names of a frame of native code: those of the symbol that holds its address in its own
/// module, or the module and the address where none does.
pub proof fn law_native_frame(syms: SamplySymsView, p: FirefoxProfile, t: Thread, i: int, f: int, r: int, lib: int)
    requires
        0 <= i < t.frame_table.func@.len(),
        i <= i64::MAX,
        t.frame_table.func@[i] == f,
        0 <= f < t.func_table.resource@.len(),
        t.func_table.resource@[f] == r,
        t.resource_table matches Some(table) && 0 <= r < table.lib@.len() && table.lib@[r] == lib,
        0 <= lib < p.libs@.len(),
        lib <= usize::MAX,
        i < t.frame_table.address@.len(),
        t.frame_table.address@[i] > 0,
    ensures
        match looked_up(syms, p.libs@[lib].debug_name@, t.frame_table.address@[i] as u64) {
            Some(fs) => samply_names(syms, p, t, i as i64).len() == fs.len() && forall|k: int|
                0 <= k < fs.len() ==> (#[trigger] samply_names(syms, p, t, i as i64)[k]).name == fs[k].name
                    && samply_names(syms, p, t, i as i64)[k].file == fs[k].file && samply_names(syms, p, t, i as i64)[k].line
                    == fs[k].line && samply_names(syms, p, t, i as i64)[k].mapping_index == lib,
            None => samply_names(syms, p, t, i as i64).len() == 1 && samply_names(syms, p, t, i as i64)[0].mapping_index
                == lib && (p.libs@[lib].name@.len() > 0 ==> samply_names(syms, p, t, i as i64)[0].name
                == p.libs@[lib].name@ + "+0x"@ + hex(t.frame_table.address@[i] as nat)),
        },
{
    assert(owner(t, i as i64) == lib);
}

/// A list of parts is one list behind another.
pub proof fn law_parts_in_order(data: Seq<u8>, at: int, a: nat, b: nat)
    ensures
        gathered(data, at, a + b) == match (gathered(data, at, a), gathered(data, at + 8 * a, b)) {
            (Some(x), Some(y)) => Some(x + y),
            _ => None,
        },
    decreases b,
{
    if b == 0 {
        if let Some(x) = gathered(data, at, a) {
            assert(x + Seq::<u8>::empty() =~= x);
        }
    } else {
        let c = (b - 1) as nat;
        law_parts_in_order(data, at, a, c);
        let e = at + (a + b - 1) * 8;
        assert(e == (at + 8 * a) + (b - 1) * 8);
        if let (Some(x), Some(y)) = (gathered(data, at, a), gathered(data, at + 8 * a, c)) {
            if 0 <= e && e + 8 <= data.len() {
                let from = le_value(data.subrange(e, e + 4));
                let len = le_value(data.subrange(e + 4, e + 8));
                if from + len <= data.len() {
                    let z = data.subrange(from as int, (from + len) as int);
                    assert((x + y) + z =~= x + (y + z));
                }
            }
        }
    }
}

/// A part is given by its address and its length, each in four bytes, the lowest first.
pub proof fn law_part(data: Seq<u8>, at: int, from: u32, len: u32)
    requires
        0 <= at,
        at + 8 <= data.len(),
        data.subrange(at, at + 4) == le_bytes(from as nat, 4),
        data.subrange(at + 4, at + 8) == le_bytes(len as nat, 4),
    ensures
        from + len <= data.len() ==> gathered(data, at, 1) == Some(data.subrange(from as int, from + len)),
        from + len > data.len() ==> gathered(data, at, 1) is None,
{
    lemma_four(from);
    lemma_four(len);
    assert(gathered(data, at, 0) == Some(Seq::<u8>::empty()));
    if from + len <= data.len() {
        let z = data.subrange(from as int, from + len);
        assert(Seq::<u8>::empty() + z =~= z);
    }
}

/// The symbols of a compressed profile stand beside it under its name without `.gz`.
pub proof fn law_symbols_beside(path: Seq<char>)
    ensures
        syms_path(path + ".gz"@) == path + ".syms.json"@,
        !ends(path, ".gz"@) ==> syms_path(path) == path + ".syms.json"@,
{
    reveal_strlit(".gz");
    let s = path + ".gz"@;
    assert(s.skip(path.len() as int) =~= ".gz"@);
    assert(s.take(s.len() - 3) =~= path);
}

/// Whether a sample type is one of processor or wall-clock time in a unit that is known.
pub open spec fn counts_processor_time(p: ProfileView, i: int) -> bool {
    let t = type_of(p, i);
    let u = unit_of(p, i);
    &&& t == "cpu"@ || t == "wall"@
    &&& u == "nanoseconds"@ || u == "microseconds"@ || u == "milliseconds"@ || u == "count"@
}

/// A comparison is about the first axis of processor or wall-clock time, and times are shown in
/// milliseconds.
pub proof fn law_comparison_axis(p: ProfileView)
    requires
        p.sample_type.len() <= usize::MAX,
    ensures
        ({
            let time = |p: ProfileView, i: int| counts_processor_time(p, i);
            let a = cpu_axis_of(p);
            let u = unit_of(p, a.idx as int);
            &&& is_none(p, time) ==> a.idx == 0 && a.div == 1
            &&& !is_none(p, time) ==> is_first(p, a.idx as int, time) && (u == "nanoseconds"@ ==> a.div == 1_000_000) && (u
                == "microseconds"@ ==> a.div == 1_000) && (u == "milliseconds"@ ==> a.div == 1) && (u == "count"@
                ==> a.div == 1)
        }),
{
    let t = type_names(p);
    let cpu = |x: (Seq<char>, Seq<char>)| is_cpu(x);
    let time = |p: ProfileView, i: int| counts_processor_time(p, i);
    lemma_first_type(t, cpu);
    lemma_units_apart();
    assert forall|i: int| 0 <= i < p.sample_type.len() implies #[trigger] time(p, i) == cpu(t[i]) by {}
    match first_type(t, cpu) {
        Some(i) => {
            assert(cpu(t[i as int]));
            assert(time(p, i as int));
        },
        None => {},
    }
}

/// A finite number is above zero where it is not zero and has no sign, and one or more where it
/// has no fraction alone.
pub proof fn law_compared(bits: u64)
    requires
        is_finite(bits),
    ensures
        is_positive(bits) <==> bits < 0x8000_0000_0000_0000 && significand(bits) > 0,
        is_one_or_more(bits) <==> bits < 0x8000_0000_0000_0000 && exponent_field(bits) > 0 && exponent(bits) + 52 >= 0,
{
    let f = bits as int / 0x10_0000_0000_0000;
    let r = bits as int % 0x10_0000_0000_0000;
    assert(bits == f * 0x10_0000_0000_0000 + r);
    if bits < 0x8000_0000_0000_0000 {
        assert(f < 0x800);
        assert(exponent_field(bits) == f);
    }
}

} // verus!

//! pprof profiles as folded stacks, and what all pprof exporters share.
use vstd::prelude::*;
use crate::num::{fits_i64, is_i64};
use crate::proto::{string_at, text_at, Profile, ProfileView, Sample, SampleView, ValueType};
use crate::resolve::{frame_views, sample_frames, ProfileIndex};
use crate::tally::{sum, total};
use crate::text::{append_chars, append_decimal, chars_of, dec, join};

verus! {

/// Options shared by pprof exporters.
#[derive(Clone, Copy, Debug)]
pub struct PprofExportOptions {
    /// Index of the sample value to export. The first CPU or wall time axis where none
    /// is given.
    pub value_index: Option<usize>,
}

impl Default for PprofExportOptions {
    fn default() -> (r: PprofExportOptions)
        ensures
            r.value_index is None,
    {
        PprofExportOptions { value_index: None }
    }
}

/// Counts of what an export produced.
#[derive(Clone, Copy, Debug, PartialEq, Eq, Structural)]
pub struct ExportStats {
    /// Number of stacks, before any are put together.
    pub stacks: usize,
    /// Sum of the exported values.
    pub total: i64,
}

/// Why a profile was not exported.
#[derive(Clone, Copy, Debug, PartialEq, Eq, Structural)]
pub enum ExportError {
    /// The profile has fewer sample types than the index asks for.
    ValueIndex { index: usize, types: usize },
    /// No sample type is one of CPU or wall time in a known unit.
    NoAxis,
    /// The sum of all values does not fit in 64 bits.
    Overflow,
}

/// The units that Speedscope knows.
pub open spec fn is_known_unit(unit: Seq<char>) -> bool {
    ||| unit == "none"@
    ||| unit == "nanoseconds"@
    ||| unit == "microseconds"@
    ||| unit == "milliseconds"@
    ||| unit == "seconds"@
    ||| unit == "bytes"@
}

/// Whether a sample type is one of CPU or wall time in a known unit.
pub open spec fn is_time_axis(p: ProfileView, t: ValueType) -> bool {
    let ty = text_at(p.string_table, t.ty);
    (ty == "cpu"@ || ty == "wall"@) && is_known_unit(text_at(p.string_table, t.unit))
}

/// The first time axis from `i` on.
pub open spec fn first_axis(p: ProfileView, i: int) -> Option<int>
    decreases p.sample_type.len() - i,
{
    if 0 <= i < p.sample_type.len() {
        if is_time_axis(p, p.sample_type[i]) {
            Some(i)
        } else {
            first_axis(p, i + 1)
        }
    } else {
        None
    }
}

/// The index of the value to export.
pub open spec fn axis_of(p: ProfileView, explicit: Option<usize>) -> Result<int, ExportError> {
    match explicit {
        Some(i) => if i < p.sample_type.len() {
            Ok(i as int)
        } else {
            Err(ExportError::ValueIndex { index: i, types: p.sample_type.len() as usize })
        },
        None => match first_axis(p, 0) {
            Some(i) => Ok(i),
            None => Err(ExportError::NoAxis),
        },
    }
}

/// The value of a sample at an index, 0 where it has none.
pub open spec fn value_at(s: SampleView, i: int) -> i64 {
    if 0 <= i < s.value.len() {
        s.value[i]
    } else {
        0
    }
}

/// A sample is exported where its value is above zero and it has a stack.
pub open spec fn is_exported(s: SampleView, axis: int) -> bool {
    value_at(s, axis) > 0 && s.location_id.len() > 0
}

/// The samples that are exported.
pub open spec fn exported(samples: Seq<SampleView>, axis: int) -> Seq<SampleView>
    decreases samples.len(),
{
    if samples.len() == 0 {
        Seq::empty()
    } else if is_exported(samples.last(), axis) {
        exported(samples.drop_last(), axis).push(samples.last())
    } else {
        exported(samples.drop_last(), axis)
    }
}

/// The values of the exported samples.
pub open spec fn exported_values(samples: Seq<SampleView>, axis: int) -> Seq<i64> {
    Seq::new(exported(samples, axis).len(), |i: int| value_at(exported(samples, axis)[i], axis))
}

/// The counts of an export.
pub open spec fn export_stats(samples: Seq<SampleView>, axis: int) -> ExportStats {
    ExportStats {
        stacks: exported(samples, axis).len() as usize,
        total: total(exported_values(samples, axis)) as i64,
    }
}

/// A frame name with nothing in it that folded text uses as a mark.
pub open spec fn sanitized(s: Seq<char>) -> Seq<char> {
    Seq::new(
        s.len(),
        |i: int|
            if s[i] == ';' {
                ':'
            } else if s[i] == '\n' {
                ' '
            } else {
                s[i]
            },
    )
}

/// The frame names of a sample, root first.
pub open spec fn frame_names(p: ProfileView, s: SampleView) -> Seq<Seq<char>> {
    Seq::new(sample_frames(p, s).len(), |i: int| sanitized(sample_frames(p, s)[i].name))
}

/// The stack column of a sample.
pub open spec fn stack_text(p: ProfileView, s: SampleView) -> Seq<char> {
    join(frame_names(p, s), seq![';'])
}

/// Whether `a` comes before `b` in order of characters.
pub open spec fn text_less(a: Seq<char>, b: Seq<char>) -> bool
    decreases a.len(),
{
    if b.len() == 0 {
        false
    } else if a.len() == 0 {
        true
    } else if a[0] == b[0] {
        text_less(a.drop_first(), b.drop_first())
    } else {
        a[0] < b[0]
    }
}

pub(crate) proof fn lemma_less_not_equal(a: Seq<char>, b: Seq<char>)
    requires
        text_less(a, b),
    ensures
        a != b,
        !text_less(b, a),
    decreases a.len(),
{
    if a.len() > 0 && b.len() > 0 && a[0] == b[0] {
        lemma_less_not_equal(a.drop_first(), b.drop_first());
    }
}

pub(crate) proof fn lemma_less_trans(a: Seq<char>, b: Seq<char>, c: Seq<char>)
    requires
        text_less(a, b),
        text_less(b, c),
    ensures
        text_less(a, c),
    decreases a.len(),
{
    if a.len() > 0 && b.len() > 0 && c.len() > 0 && a[0] == b[0] && b[0] == c[0] {
        lemma_less_trans(a.drop_first(), b.drop_first(), c.drop_first());
    }
}

pub(crate) proof fn lemma_less_total(a: Seq<char>, b: Seq<char>)
    ensures
        a == b || text_less(a, b) || text_less(b, a),
    decreases a.len(),
{
    if a.len() == 0 && b.len() == 0 {
        assert(a =~= b);
    } else if a.len() > 0 && b.len() > 0 && a[0] == b[0] {
        lemma_less_total(a.drop_first(), b.drop_first());
        if a.drop_first() == b.drop_first() {
            assert(a =~= seq![a[0]] + a.drop_first());
            assert(b =~= seq![b[0]] + b.drop_first());
        }
    }
}

/// A sum per text, in order of the texts, with `v` added to that of `k`.
pub open spec fn added(m: Seq<(Seq<char>, int)>, k: Seq<char>, v: int) -> Seq<(Seq<char>, int)>
    decreases m.len(),
{
    if m.len() == 0 {
        seq![(k, v)]
    } else if m[0].0 == k {
        seq![(k, m[0].1 + v)] + m.drop_first()
    } else if text_less(k, m[0].0) {
        seq![(k, v)] + m
    } else {
        seq![m[0]] + added(m.drop_first(), k, v)
    }
}

/// The sum of values per stack, in order of the stacks.
pub open spec fn folded_sums(p: ProfileView, samples: Seq<SampleView>, axis: int) -> Seq<(Seq<char>, int)>
    decreases samples.len(),
{
    if samples.len() == 0 {
        Seq::empty()
    } else {
        added(
            folded_sums(p, samples.drop_last(), axis),
            stack_text(p, samples.last()),
            value_at(samples.last(), axis) as int,
        )
    }
}

/// One line per stack.
pub open spec fn folded_lines(m: Seq<(Seq<char>, int)>) -> Seq<char>
    decreases m.len(),
{
    if m.len() == 0 {
        Seq::empty()
    } else {
        folded_lines(m.drop_last()) + m.last().0 + seq![' '] + dec(m.last().1 as nat) + seq!['\n']
    }
}

/// The folded text of a profile.
pub open spec fn folded_text(p: ProfileView, axis: int) -> Seq<char> {
    folded_lines(folded_sums(p, exported(p.sample, axis), axis))
}

fn is_speedscope_unit(unit: &str) -> (r: bool)
    ensures
        r == is_known_unit(unit@),
{
    unit.eq("none") || unit.eq("nanoseconds") || unit.eq("microseconds") || unit.eq("milliseconds") || unit.eq(
        "seconds",
    ) || unit.eq("bytes")
}

/// The index of the value to export.
pub(crate) fn select_pprof_axis(profile: &Profile, explicit: Option<usize>) -> (r: Result<usize, ExportError>)
    ensures
        match r {
            Ok(i) => axis_of(profile@, explicit) == Ok::<int, ExportError>(i as int) && i < profile.sample_type@.len(),
            Err(e) => axis_of(profile@, explicit) == Err::<int, ExportError>(e),
        },
{
    let n: usize = profile.sample_type.len();
    if let Some(index) = explicit {
        if index < n {
            return Ok(index);
        }
        return Err(ExportError::ValueIndex { index, types: n });
    }
    let mut i: usize = 0;
    while i < n
        invariant
            n == profile.sample_type@.len(),
            explicit is None,
            i <= n,
            first_axis(profile@, 0) == first_axis(profile@, i as int),
        decreases n - i,
    {
        let t = profile.sample_type[i];
        let ty = string_at(profile, t.ty);
        if (ty.eq("cpu") || ty.eq("wall")) && is_speedscope_unit(string_at(profile, t.unit)) {
            return Ok(i);
        }
        i += 1;
    }
    Err(ExportError::NoAxis)
}

/// The value of a sample at an index, 0 where it has none.
pub(crate) fn sample_value(s: &Sample, i: usize) -> (v: i64)
    ensures
        v == value_at(s@, i as int),
{
    if i < s.value.len() {
        s.value[i]
    } else {
        0
    }
}

fn sanitize_folded_frame(s: &str) -> (r: Vec<char>)
    ensures
        r@ == sanitized(s@),
{
    let all = chars_of(s);
    let mut r: Vec<char> = Vec::new();
    for i in 0..all.len()
        invariant
            all@ == s@,
            r@ == sanitized(s@).take(i as int),
    {
        let c = all[i];
        r.push(
            if c == ';' {
                ':'
            } else if c == '\n' {
                ' '
            } else {
                c
            },
        );
        assert(r@ =~= sanitized(s@).take(i + 1));
    }
    assert(sanitized(s@).take(all@.len() as int) =~= sanitized(s@));
    r
}

/// The stack column of a sample.
fn stack_column(index: &ProfileIndex, s: &Sample) -> (r: Vec<char>)
    requires
        index.wf(),
    ensures
        r@ == stack_text(index.of()@, s@),
{
    let frames = index.stack(s);
    let ghost names = frame_names(index.of()@, s@);
    let mut r: Vec<char> = Vec::new();
    assert(names.take(0) =~= Seq::<Seq<char>>::empty());
    for i in 0..frames.len()
        invariant
            frame_views(frames@) == sample_frames(index.of()@, s@),
            names == frame_names(index.of()@, s@),
            names.len() == frames@.len(),
            r@ == join(names.take(i as int), seq![';']),
    {
        if i > 0 {
            r.push(';');
        }
        let mut one = sanitize_folded_frame(frames[i].name.as_str());
        proof {
            assert(frame_views(frames@)[i as int] == frames@[i as int]@);
            assert(one@ == names[i as int]);
            assert(names.take(i + 1).drop_last() =~= names.take(i as int));
            assert(names.take(i + 1).last() == names[i as int]);
        }
        let ghost before = r@;
        r.append(&mut one);
        assert(r@ =~= join(names.take(i + 1), seq![';']));
    }
    assert(names.take(names.len() as int) =~= names);
    r
}

/// How two texts compare.
#[derive(Clone, Copy, PartialEq, Eq, Structural)]
pub(crate) enum Order {
    Less,
    Equal,
    Greater,
}

pub(crate) fn order_texts(a: &[char], b: &[char]) -> (r: Order)
    ensures
        (r == Order::Equal) == (a@ == b@),
        (r == Order::Less) == text_less(a@, b@),
{
    let mut i: usize = 0;
    assert(a@.skip(0) =~= a@);
    assert(b@.skip(0) =~= b@);
    while i < a.len() && i < b.len()
        invariant
            i <= a@.len(),
            i <= b@.len(),
            a@.take(i as int) == b@.take(i as int),
            text_less(a@, b@) == text_less(a@.skip(i as int), b@.skip(i as int)),
        decreases a@.len() - i,
    {
        if a[i] != b[i] {
            assert(a@[i as int] != b@[i as int]);
            if a[i] < b[i] {
                return Order::Less;
            }
            return Order::Greater;
        }
        proof {
            assert(a@.skip(i as int).drop_first() =~= a@.skip(i + 1));
            assert(b@.skip(i as int).drop_first() =~= b@.skip(i + 1));
            assert(a@.take(i + 1) =~= a@.take(i as int).push(a@[i as int]));
            assert(b@.take(i + 1) =~= b@.take(i as int).push(b@[i as int]));
        }
        i += 1;
    }
    assert(a@.take(a@.len() as int) =~= a@);
    assert(b@.take(b@.len() as int) =~= b@);
    if i < b.len() {
        Order::Less
    } else if i < a.len() {
        assert(a@.len() != b@.len());
        Order::Greater
    } else {
        Order::Equal
    }
}

spec fn sums_view(m: Seq<(Vec<char>, i128)>) -> Seq<(Seq<char>, int)> {
    Seq::new(m.len(), |i: int| (m[i].0@, m[i].1 as int))
}

proof fn lemma_added_skip(m: Seq<(Seq<char>, int)>, i: int, k: Seq<char>, v: int)
    requires
        0 <= i <= m.len(),
        forall|j: int| 0 <= j < i ==> (#[trigger] m[j]).0 != k && !text_less(k, m[j].0),
    ensures
        added(m, k, v) == m.take(i) + added(m.skip(i), k, v),
    decreases i,
{
    if i == 0 {
        assert(m.skip(0) =~= m);
        assert(m.take(0) + added(m, k, v) =~= added(m, k, v));
    } else {
        let t = m.drop_first();
        assert(m[0].0 != k);
        assert forall|j: int| 0 <= j < i - 1 implies (#[trigger] t[j]).0 != k && !text_less(k, t[j].0) by {
            assert(m[j + 1].0 != k);
        }
        lemma_added_skip(t, i - 1, k, v);
        assert(t.skip(i - 1) =~= m.skip(i));
        assert(seq![m[0]] + (t.take(i - 1) + added(m.skip(i), k, v)) =~= m.take(i) + added(m.skip(i), k, v));
    }
}

/// Adds `v` to the sum of `k`. Sums stay between 1 and `bound`.
fn add_sum(m: &mut Vec<(Vec<char>, i128)>, k: Vec<char>, v: i64, bound: Ghost<int>)
    requires
        v > 0,
        bound@ + v < 0x7fff_ffff_ffff_ffff_ffff_ffff_ffff_ffff,
        bound@ >= 0,
        forall|i: int| 0 <= i < old(m)@.len() ==> 0 < (#[trigger] old(m)@[i]).1 <= bound@,
    ensures
        sums_view(final(m)@) == added(sums_view(old(m)@), k@, v as int),
        forall|i: int| 0 <= i < final(m)@.len() ==> 0 < (#[trigger] final(m)@[i]).1 <= bound@ + v,
{
    let ghost m0 = sums_view(m@);
    let ghost old_m = m@;
    let mut i: usize = 0;
    while i < m.len()
        invariant
            m@ == old_m,
            old_m == old(m)@,
            m0 == sums_view(m@),
            i <= m@.len(),
            v > 0,
            bound@ + v < 0x7fff_ffff_ffff_ffff_ffff_ffff_ffff_ffff,
            forall|i: int| 0 <= i < m@.len() ==> 0 < (#[trigger] m@[i]).1 <= bound@,
            forall|j: int| 0 <= j < i ==> (#[trigger] m0[j]).0 != k@ && !text_less(k@, m0[j].0),
        ensures
            m@ == old_m,
            i <= m@.len(),
            forall|j: int| 0 <= j < i ==> (#[trigger] m0[j]).0 != k@ && !text_less(k@, m0[j].0),
            i < m@.len() ==> text_less(k@, m0[i as int].0) && m0[i as int].0 != k@,
        decreases m@.len() - i,
    {
        match order_texts(k.as_slice(), m[i].0.as_slice()) {
            Order::Equal => {
                let s: i128 = m[i].1 + v as i128;
                m[i].1 = s;
                proof {
                    lemma_added_skip(m0, i as int, k@, v as int);
                    assert(m0.skip(i as int)[0] == m0[i as int]);
                    assert(m0.skip(i as int).drop_first() =~= m0.skip(i + 1));
                    assert(sums_view(m@) =~= m0.take(i as int) + (seq![(k@, m0[i as int].1 + v)] + m0.skip(
                        i + 1,
                    )));
                }
                return;
            },
            Order::Less => {
                break;
            },
            Order::Greater => {
                i += 1;
            },
        }
    }
    proof {
        lemma_added_skip(m0, i as int, k@, v as int);
        if i < m@.len() {
            assert(m0.skip(i as int)[0] == m0[i as int]);
        } else {
            assert(m0.skip(i as int) =~= Seq::<(Seq<char>, int)>::empty());
        }
    }
    let ghost kk = k@;
    m.insert(i, (k, v as i128));
    proof {
        assert(sums_view(m@) =~= m0.take(i as int) + (seq![(kk, v as int)] + m0.skip(i as int)));
        assert forall|x: int| 0 <= x < m@.len() implies 0 < (#[trigger] m@[x]).1 <= bound@ + v by {
            if x < i {
                assert(m@[x] == old_m[x]);
            } else if x > i {
                assert(m@[x] == old_m[x - 1]);
            }
        }
    }
}

fn print_sums(m: &Vec<(Vec<char>, i128)>) -> (out: String)
    requires
        forall|i: int| 0 <= i < m@.len() ==> 0 < (#[trigger] m@[i]).1 <= i64::MAX,
    ensures
        out@ == folded_lines(sums_view(m@)),
{
    let ghost v = sums_view(m@);
    let mut out = String::new();
    assert(out@ =~= folded_lines(v.take(0)));
    for i in 0..m.len()
        invariant
            v == sums_view(m@),
            forall|i: int| 0 <= i < m@.len() ==> 0 < (#[trigger] m@[i]).1 <= i64::MAX,
            out@ == folded_lines(v.take(i as int)),
    {
        proof {
            assert(v.take(i + 1).drop_last() =~= v.take(i as int));
            assert(v.take(i + 1).last() == v[i as int]);
            assert(0 < m@[i as int].1 <= i64::MAX);
        }
        append_chars(&mut out, m[i].0.as_slice());
        out.push(' ');
        append_decimal(&mut out, m[i].1 as u64);
        out.push('\n');
        assert(out@ =~= folded_lines(v.take(i + 1)));
    }
    assert(v.take(v.len() as int) =~= v);
    out
}

/// What the export of a profile gives.
pub open spec fn folded_as(
    p: ProfileView,
    opts: PprofExportOptions,
    r: Result<(String, ExportStats), ExportError>,
) -> bool {
    match axis_of(p, opts.value_index) {
        Err(e) => r == Err::<(String, ExportStats), ExportError>(e),
        Ok(axis) => {
            let sum = total(exported_values(p.sample, axis));
            match r {
                Ok((text, stats)) => {
                    &&& is_i64(sum)
                    &&& text@ == folded_text(p, axis)
                    &&& stats == export_stats(p.sample, axis)
                },
                Err(e) => !is_i64(sum) && e == ExportError::Overflow,
            }
        },
    }
}

/// Converts a profile to folded stack lines, `root;child;leaf value`.
pub fn pprof_to_folded(profile: &Profile, opts: &PprofExportOptions) -> (r: Result<(String, ExportStats), ExportError>)
    ensures
        folded_as(profile@, *opts, r),
{
    let axis: usize = match select_pprof_axis(profile, opts.value_index) {
        Ok(i) => i,
        Err(e) => {
            return Err(e);
        },
    };
    let index = ProfileIndex::new(profile);
    let ghost p = profile@;
    let ghost v = p.sample;
    let mut sums: Vec<(Vec<char>, i128)> = Vec::new();
    let mut stacks: usize = 0;
    let mut sum: i128 = 0;
    proof {
        assert(sums_view(sums@) =~= folded_sums(p, exported(v.take(0), axis as int), axis as int));
        assert(exported_values(v.take(0), axis as int) =~= Seq::<i64>::empty());
    }
    for i in 0..profile.sample.len()
        invariant
            p == profile@,
            v == p.sample,
            index.wf(),
            index.of() == *profile,
            sums_view(sums@) == folded_sums(p, exported(v.take(i as int), axis as int), axis as int),
            stacks == exported(v.take(i as int), axis as int).len(),
            stacks <= i,
            sum == total(exported_values(v.take(i as int), axis as int)),
            0 <= sum <= i * 0x8000_0000_0000_0000,
            forall|k: int| 0 <= k < sums@.len() ==> 0 < (#[trigger] sums@[k]).1 <= sum,
    {
        let s = &profile.sample[i];
        let ghost next = v.take(i + 1);
        let ghost done = exported(v.take(i as int), axis as int);
        proof {
            assert(next.drop_last() =~= v.take(i as int));
            assert(next.last() == s@);
            assert(i * 0x8000_0000_0000_0000 < 0x7fff_ffff_ffff_ffff_ffff_ffff_ffff_ffff - 0x8000_0000_0000_0000)
                by (nonlinear_arith)
                requires
                    i < 0xffff_ffff_ffff_ffff,
            ;
        }
        let value: i64 = sample_value(s, axis);
        if value > 0 && s.location_id.len() > 0 {
            let column = stack_column(&index, s);
            add_sum(&mut sums, column, value, Ghost(sum as int));
            stacks += 1;
            sum = sum + value as i128;
            proof {
                let now = exported(next, axis as int);
                assert(now == done.push(s@));
                assert(now.drop_last() =~= done);
                assert(exported_values(next, axis as int).drop_last() =~= exported_values(
                    v.take(i as int),
                    axis as int,
                ));
            }
        } else {
            assert(exported(next, axis as int) == done);
        }
    }
    assert(v.take(v.len() as int) =~= v);
    if !fits_i64(sum) {
        return Err(ExportError::Overflow);
    }
    let text = print_sums(&sums);
    Ok((text, ExportStats { stacks, total: sum as i64 }))
}

/// Whether each text comes before the next.
pub open spec fn ascending(m: Seq<(Seq<char>, int)>) -> bool {
    forall|i: int, j: int| 0 <= i < j < m.len() ==> text_less(#[trigger] m[i].0, #[trigger] m[j].0)
}

proof fn lemma_added_ascending(m: Seq<(Seq<char>, int)>, k: Seq<char>, v: int)
    requires
        ascending(m),
    ensures
        ascending(added(m, k, v)),
        forall|i: int|
            0 <= i < added(m, k, v).len() ==> (#[trigger] added(m, k, v)[i]).0 == k || exists|j: int|
                0 <= j < m.len() && (#[trigger] m[j]).0 == added(m, k, v)[i].0,
    decreases m.len(),
{
    let r = added(m, k, v);
    if m.len() == 0 {
    } else if m[0].0 == k {
        assert forall|i: int| 0 <= i < r.len() implies (#[trigger] r[i]).0 == m[i].0 by {}
        assert forall|i: int, j: int| 0 <= i < j < r.len() implies text_less(
            #[trigger] r[i].0,
            #[trigger] r[j].0,
        ) by {
            assert(text_less(m[i].0, m[j].0));
        }
    } else if text_less(k, m[0].0) {
        assert forall|i: int, j: int| 0 <= i < j < r.len() implies text_less(
            #[trigger] r[i].0,
            #[trigger] r[j].0,
        ) by {
            if i == 0 {
                if j > 1 {
                    assert(text_less(m[0].0, m[j - 1].0));
                    lemma_less_trans(k, m[0].0, m[j - 1].0);
                }
            } else {
                assert(text_less(m[i - 1].0, m[j - 1].0));
            }
        }
        assert forall|i: int| 0 < i < r.len() implies (#[trigger] r[i]).0 == m[i - 1].0 by {}
    } else {
        let t = m.drop_first();
        assert forall|i: int, j: int| 0 <= i < j < t.len() implies text_less(
            #[trigger] t[i].0,
            #[trigger] t[j].0,
        ) by {
            assert(text_less(m[i + 1].0, m[j + 1].0));
        }
        lemma_added_ascending(t, k, v);
        lemma_less_total(k, m[0].0);
        let u = added(t, k, v);
        assert forall|i: int| 0 <= i < u.len() implies text_less(m[0].0, (#[trigger] u[i]).0) && (u[i].0 == k
            || exists|j: int| 0 <= j < m.len() && (#[trigger] m[j]).0 == u[i].0) by {
            if u[i].0 != k {
                let j = choose|j: int| 0 <= j < t.len() && (#[trigger] t[j]).0 == u[i].0;
                assert(text_less(m[0].0, m[j + 1].0));
                assert(m[j + 1].0 == u[i].0);
            }
        }
        assert forall|i: int, j: int| 0 <= i < j < r.len() implies text_less(
            #[trigger] r[i].0,
            #[trigger] r[j].0,
        ) by {
            if i > 0 {
                assert(text_less(u[i - 1].0, u[j - 1].0));
            } else {
                assert(text_less(m[0].0, u[j - 1].0));
            }
        }
        assert forall|i: int| 0 <= i < r.len() implies (#[trigger] r[i]).0 == k || exists|j: int|
            0 <= j < m.len() && (#[trigger] m[j]).0 == r[i].0 by {
            if i > 0 {
                assert(r[i] == u[i - 1]);
            } else {
                assert(r[0].0 == m[0].0);
            }
        }
    }
}

proof fn lemma_added_total(m: Seq<(Seq<char>, int)>, k: Seq<char>, v: int)
    ensures
        sum(seconds(added(m, k, v))) == sum(seconds(m)) + v,
    decreases m.len(),
{
    let r = added(m, k, v);
    if m.len() == 0 {
        assert(seconds(r).drop_last() =~= seconds(m));
    } else {
        lemma_sum_front(seconds(m));
        lemma_sum_front(seconds(r));
        assert(seconds(m).drop_first() =~= seconds(m.drop_first()));
        if m[0].0 == k {
            assert(seconds(r).drop_first() =~= seconds(m.drop_first()));
        } else if text_less(k, m[0].0) {
            assert(seconds(r).drop_first() =~= seconds(m));
        } else {
            lemma_added_total(m.drop_first(), k, v);
            assert(seconds(r).drop_first() =~= seconds(added(m.drop_first(), k, v)));
        }
    }
}

proof fn lemma_sum_front(s: Seq<int>)
    requires
        s.len() > 0,
    ensures
        sum(s) == s[0] + sum(s.drop_first()),
    decreases s.len(),
{
    if s.len() == 1 {
        assert(s.drop_last() =~= Seq::<int>::empty());
        assert(s.drop_first() =~= Seq::<int>::empty());
    } else {
        lemma_sum_front(s.drop_last());
        assert(s.drop_last().drop_first() =~= s.drop_first().drop_last());
    }
}

/// The sums without their texts.
pub open spec fn seconds(m: Seq<(Seq<char>, int)>) -> Seq<int> {
    Seq::new(m.len(), |i: int| m[i].1)
}

/// The lines come in order of their stacks, no stack has two, and their values add up
/// to those of the samples.
pub proof fn law_folded_lines(p: ProfileView, samples: Seq<SampleView>, axis: int)
    ensures
        ascending(folded_sums(p, samples, axis)),
        sum(seconds(folded_sums(p, samples, axis))) == total(
            Seq::new(samples.len(), |i: int| value_at(samples[i], axis)),
        ),
    decreases samples.len(),
{
    let w = Seq::new(samples.len(), |i: int| value_at(samples[i], axis));
    if samples.len() > 0 {
        let before = samples.drop_last();
        law_folded_lines(p, before, axis);
        assert(w.drop_last() =~= Seq::new(before.len(), |i: int| value_at(before[i], axis)));
        let m = folded_sums(p, before, axis);
        let k = stack_text(p, samples.last());
        lemma_added_ascending(m, k, value_at(samples.last(), axis) as int);
        lemma_added_total(m, k, value_at(samples.last(), axis) as int);
    }
}

} // verus!

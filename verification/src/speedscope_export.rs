//! pprof profiles as Speedscope files.
use vstd::prelude::*;
use crate::double::is_exactly;
use std::collections::HashMap;
use crate::folded_export::{
    axis_of, export_stats, exported, exported_values, sample_value, select_pprof_axis, ExportError,
    ExportStats,
};
use crate::json::{
    array_value, distinct_keys, distinct_object, double_json, double_value, int_bits, int_json,
    int_value, is_double, is_plain, is_printable, is_short, law_plain_printable, member_trees,
    pretty_json, print_pretty, reads_as, text_value, tree, trees, JsonView,
};
use crate::json_text::text_json;
use crate::num::{fits_i64, is_i64};
use crate::pool::{entered, extends, law_entered, law_place_kept, lemma_extends_trans, lemma_position};
use crate::proto::{string_at, text_at, Profile, ProfileView, Sample, SampleView};
use crate::resolve::{frame_at, frame_views, sample_frames, Frame, FrameView, ProfileIndex};
use crate::tally::total;

verus! {

broadcast use vstd::std_specs::hash::group_hash_axioms;

/// Options for Speedscope export.
#[derive(Debug)]
pub struct SpeedscopeExportOptions {
    /// Index of the sample value to export. The first CPU or wall time axis where none
    /// is given.
    pub value_index: Option<usize>,
    /// Name of the file. Default `pprof`.
    pub name: String,
    /// Name of the profile. Default `pprof`.
    pub profile_name: String,
}

impl Default for SpeedscopeExportOptions {
    fn default() -> (r: SpeedscopeExportOptions)
        ensures
            r.value_index is None,
            r.name@ == "pprof"@,
            r.profile_name@ == "pprof"@,
    {
        SpeedscopeExportOptions {
            value_index: None,
            name: "pprof".to_owned(),
            profile_name: "pprof".to_owned(),
        }
    }
}

/// Why a profile was not exported.
#[derive(Clone, Copy, Debug, PartialEq, Eq, Structural)]
pub enum SpeedscopeExportError {
    /// There is nothing to export.
    Export(ExportError),
    /// The file could not be printed.
    Json,
}

/// A table of frames with those of a stack entered.
pub open spec fn frames_entered(t: Seq<FrameView>, fs: Seq<FrameView>) -> Seq<FrameView>
    decreases fs.len(),
{
    if fs.len() == 0 {
        t
    } else {
        entered(frames_entered(t, fs.drop_last()), fs.last())
    }
}

/// The distinct frames of the samples, in the order in which they first come.
pub open spec fn frame_table(p: ProfileView, samples: Seq<SampleView>) -> Seq<FrameView>
    decreases samples.len(),
{
    if samples.len() == 0 {
        Seq::empty()
    } else {
        frames_entered(frame_table(p, samples.drop_last()), sample_frames(p, samples.last()))
    }
}

/// A stack as positions in the table, root first.
pub open spec fn positions(t: Seq<FrameView>, fs: Seq<FrameView>) -> Seq<usize> {
    Seq::new(fs.len(), |i: int| t.index_of(fs[i]) as usize)
}

/// A frame. What it lacks is left out.
pub open spec fn frame_members(f: FrameView) -> Seq<(Seq<char>, JsonView)> {
    seq![("name"@, JsonView::Text(f.name))] + (match f.file {
        Some(s) => seq![("file"@, JsonView::Text(s))],
        None => Seq::empty(),
    }) + (match f.line {
        Some(n) => seq![("line"@, int_json(n))],
        None => Seq::empty(),
    }) + (match f.col {
        Some(n) => seq![("col"@, int_json(n))],
        None => Seq::empty(),
    })
}

pub open spec fn frame_trees(t: Seq<FrameView>) -> Seq<JsonView> {
    Seq::new(t.len(), |i: int| JsonView::Object(frame_members(t[i])))
}

/// Positions as numbers.
pub open spec fn position_trees(s: Seq<usize>) -> Seq<JsonView> {
    Seq::new(s.len(), |i: int| int_json(s[i] as i64))
}

/// The stacks of the samples.
pub open spec fn stack_trees(p: ProfileView, samples: Seq<SampleView>, t: Seq<FrameView>) -> Seq<JsonView> {
    Seq::new(
        samples.len(),
        |i: int| JsonView::Array(position_trees(positions(t, sample_frames(p, samples[i])))),
    )
}

/// The weights of the samples.
pub open spec fn weight_trees(w: Seq<i64>) -> Seq<JsonView> {
    Seq::new(w.len(), |i: int| double_json(w[i]))
}

/// Whether the doubles of short weights hold them exactly.
pub open spec fn exact_weights(w: Seq<i64>) -> bool {
    forall|i: int| 0 <= i < w.len() && is_short(#[trigger] w[i] as int) ==> is_exactly(int_bits(w[i]), w[i] as int)
}

/// Whether the doubles of zero and of a short sum of the weights hold them exactly.
pub open spec fn exact_ends(w: Seq<i64>) -> bool {
    &&& is_exactly(int_bits(0), 0)
    &&& is_short(total(w)) ==> is_exactly(int_bits(total(w) as i64), total(w))
}

/// Whether the weights are short.
pub open spec fn are_short(w: Seq<i64>) -> bool {
    forall|i: int| 0 <= i < w.len() ==> is_short(#[trigger] w[i] as int)
}

/// The profile inside a file, with this end.
pub open spec fn sampled_members(
    p: ProfileView,
    axis: int,
    name: Seq<char>,
    end: JsonView,
) -> Seq<(Seq<char>, JsonView)> {
    let samples = exported(p.sample, axis);
    let w = exported_values(p.sample, axis);
    seq![
        ("type"@, JsonView::Text("sampled"@)),
        ("name"@, JsonView::Text(name)),
        ("unit"@, JsonView::Text(text_at(p.string_table, p.sample_type[axis].unit))),
        ("startValue"@, double_json(0)),
        ("endValue"@, end),
        ("samples"@, JsonView::Array(stack_trees(p, samples, frame_table(p, samples)))),
        ("weights"@, JsonView::Array(weight_trees(w))),
    ]
}

/// The end of an exported profile: the sum of the values.
pub open spec fn end_tree(p: ProfileView, axis: int) -> JsonView {
    double_json(total(exported_values(p.sample, axis)) as i64)
}

/// A file with one profile, with this end.
pub open spec fn file_members(p: ProfileView, axis: int, opts: SpeedscopeExportOptions, end: JsonView) -> Seq<
    (Seq<char>, JsonView),
> {
    let table = frame_table(p, exported(p.sample, axis));
    seq![
        ("$schema"@, JsonView::Text("https://www.speedscope.app/file-format-schema.json"@)),
        ("name"@, JsonView::Text(opts.name@)),
        ("activeProfileIndex"@, int_json(0)),
        ("exporter"@, JsonView::Text("moon-pprof"@)),
        ("shared"@, JsonView::Object(seq![("frames"@, JsonView::Array(frame_trees(table)))])),
        (
            "profiles"@,
            JsonView::Array(seq![JsonView::Object(sampled_members(p, axis, opts.profile_name@, end))]),
        ),
    ]
}

pub(crate) proof fn lemma_file_keys()
    ensures
        "$schema"@ != "name"@,
        "$schema"@ != "activeProfileIndex"@,
        "$schema"@ != "exporter"@,
        "$schema"@ != "shared"@,
        "$schema"@ != "profiles"@,
        "name"@ != "activeProfileIndex"@,
        "name"@ != "exporter"@,
        "name"@ != "shared"@,
        "name"@ != "profiles"@,
        "activeProfileIndex"@ != "exporter"@,
        "activeProfileIndex"@ != "shared"@,
        "activeProfileIndex"@ != "profiles"@,
        "exporter"@ != "shared"@,
        "exporter"@ != "profiles"@,
        "shared"@ != "profiles"@,
{
    reveal_strlit("$schema");
    reveal_strlit("name");
    reveal_strlit("activeProfileIndex");
    reveal_strlit("exporter");
    reveal_strlit("shared");
    reveal_strlit("profiles");
    assert("$schema"@.len() == 7 && "name"@.len() == 4 && "activeProfileIndex"@.len() == 18);
    assert("exporter"@.len() == 8 && "shared"@.len() == 6 && "profiles"@.len() == 8);
    assert("exporter"@[0] == 'e' && "profiles"@[0] == 'p');
}

pub(crate) proof fn lemma_sampled_keys()
    ensures
        "type"@ != "name"@,
        "type"@ != "unit"@,
        "type"@ != "startValue"@,
        "type"@ != "endValue"@,
        "type"@ != "samples"@,
        "type"@ != "weights"@,
        "name"@ != "unit"@,
        "name"@ != "startValue"@,
        "name"@ != "endValue"@,
        "name"@ != "samples"@,
        "name"@ != "weights"@,
        "unit"@ != "startValue"@,
        "unit"@ != "endValue"@,
        "unit"@ != "samples"@,
        "unit"@ != "weights"@,
        "startValue"@ != "endValue"@,
        "startValue"@ != "samples"@,
        "startValue"@ != "weights"@,
        "endValue"@ != "samples"@,
        "endValue"@ != "weights"@,
        "samples"@ != "weights"@,
{
    reveal_strlit("type");
    reveal_strlit("name");
    reveal_strlit("unit");
    reveal_strlit("startValue");
    reveal_strlit("endValue");
    reveal_strlit("samples");
    reveal_strlit("weights");
    assert("type"@.len() == 4 && "name"@.len() == 4 && "unit"@.len() == 4);
    assert("type"@[0] == 't' && "name"@[0] == 'n' && "unit"@[0] == 'u');
    assert("startValue"@.len() == 10 && "endValue"@.len() == 8 && "samples"@.len() == 7 && "weights"@.len() == 7);
    assert("samples"@[0] == 's' && "weights"@[0] == 'w');
}

pub(crate) proof fn lemma_frame_keys()
    ensures
        "name"@ != "file"@,
        "name"@ != "line"@,
        "name"@ != "col"@,
        "file"@ != "line"@,
        "file"@ != "col"@,
        "line"@ != "col"@,
{
    reveal_strlit("name");
    reveal_strlit("file");
    reveal_strlit("line");
    reveal_strlit("col");
    assert("name"@[0] == 'n' && "file"@[0] == 'f' && "line"@[0] == 'l' && "col"@[0] == 'c');
}

fn same_text(a: &Option<String>, b: &Option<String>) -> (r: bool)
    ensures
        r == (crate::resolve::opt_text(*a) == crate::resolve::opt_text(*b)),
{
    match (a, b) {
        (Some(x), Some(y)) => x.as_str().eq(y.as_str()),
        (None, None) => true,
        _ => false,
    }
}

fn same_number(a: Option<i64>, b: Option<i64>) -> (r: bool)
    ensures
        r == (a == b),
{
    match (a, b) {
        (Some(x), Some(y)) => x == y,
        (None, None) => true,
        _ => false,
    }
}

fn same_frame(a: &Frame, b: &Frame) -> (r: bool)
    ensures
        r == (a@ == b@),
{
    same_number(a.line, b.line) && same_number(a.col, b.col) && a.name.as_str().eq(b.name.as_str()) && same_text(
        &a.file,
        &b.file,
    )
}

/// The position of a frame, which is put at the end where it is new.
fn enter_frame(table: &mut Vec<Frame>, f: Frame) -> (i: usize)
    requires
        frame_views(old(table)@).no_duplicates(),
    ensures
        frame_views(final(table)@) == entered(frame_views(old(table)@), f@),
        frame_views(final(table)@).no_duplicates(),
        i == frame_views(final(table)@).index_of(f@),
        i < final(table)@.len(),
{
    let ghost v = frame_views(table@);
    let n: usize = table.len();
    for i in 0..n
        invariant
            table@ == old(table)@,
            n == table@.len(),
            v == frame_views(table@),
            v.no_duplicates(),
            forall|k: int| 0 <= k < i ==> v[k] != f@,
    {
        if same_frame(&table[i], &f) {
            proof {
                assert(v[i as int] == f@);
                lemma_position(v, i as int);
            }
            return i;
        }
    }
    let ghost fv = f@;
    table.push(f);
    proof {
        assert(frame_views(table@) =~= v.push(fv));
        law_entered(v, fv);
        lemma_position(frame_views(table@), n as int);
    }
    n
}

/// Whether the cache gives the position of the frame of each location that it knows.
spec fn cache_ok(cache: Map<u64, usize>, t: Seq<FrameView>, p: ProfileView) -> bool {
    forall|id: u64|
        #![trigger cache.contains_key(id)]
        cache.contains_key(id) ==> cache[id] < t.len() && t[cache[id] as int] == frame_at(p, id)
}

/// The positions of the frames of a sample, root first.
fn enter_stack(
    table: &mut Vec<Frame>,
    cache: &mut HashMap<u64, usize>,
    index: &ProfileIndex,
    s: &Sample,
) -> (r: Vec<usize>)
    requires
        index.wf(),
        frame_views(old(table)@).no_duplicates(),
        cache_ok(old(cache)@, frame_views(old(table)@), index.of()@),
    ensures
        frame_views(final(table)@) == frames_entered(
            frame_views(old(table)@),
            sample_frames(index.of()@, s@),
        ),
        frame_views(final(table)@).no_duplicates(),
        cache_ok(final(cache)@, frame_views(final(table)@), index.of()@),
        r@ == positions(frame_views(final(table)@), sample_frames(index.of()@, s@)),
        extends(frame_views(old(table)@), frame_views(final(table)@)),
        all_in(frame_views(final(table)@), sample_frames(index.of()@, s@)),
{
    let n: usize = s.location_id.len();
    let ghost fs = sample_frames(index.of()@, s@);
    let ghost t0 = frame_views(table@);
    let mut r: Vec<usize> = Vec::new();
    assert(t0.take(t0.len() as int) =~= t0);
    for i in 0..n
        invariant
            index.wf(),
            n == s.location_id@.len(),
            fs == sample_frames(index.of()@, s@),
            frame_views(table@) == frames_entered(t0, fs.take(i as int)),
            frame_views(table@).no_duplicates(),
            cache_ok(cache@, frame_views(table@), index.of()@),
            r@ == positions(frame_views(table@), fs.take(i as int)),
            extends(t0, frame_views(table@)),
            all_in(frame_views(table@), fs.take(i as int)),
    {
        let id: u64 = s.location_id[n - 1 - i];
        let ghost before = frame_views(table@);
        let ghost done = fs.take(i as int);
        let ghost next = fs.take(i + 1);
        let ghost f = fs[i as int];
        let ghost old_cache = cache@;
        assert(next.drop_last() =~= done);
        let known: Option<usize> = match cache.get(&id) {
            Some(k) => Some(*k),
            None => None,
        };
        let at: usize = match known {
            Some(k) => {
                proof {
                    assert(old_cache.contains_key(id));
                    lemma_position(before, k as int);
                    assert(before.contains(f));
                    assert(entered(before, f) == before);
                    assert(before.take(before.len() as int) =~= before);
                }
                k
            },
            None => {
                let frame = index.frame_for_location(id);
                let k: usize = enter_frame(table, frame);
                cache.insert(id, k);
                proof {
                    law_entered(before, f);
                    let now = frame_views(table@);
                    assert forall|x: u64| #![trigger cache@.contains_key(x)] cache@.contains_key(x) implies cache@[x]
                        < now.len() && now[cache@[x] as int] == frame_at(index.of()@, x) by {
                        if x != id {
                            assert(old_cache.contains_key(x));
                            assert(now.take(before.len() as int)[old_cache[x] as int] == before[old_cache[x] as int]);
                        }
                    }
                }
                k
            },
        };
        r.push(at);
        proof {
            let now = frame_views(table@);
            law_entered(before, f);
            lemma_extends_trans(t0, before, now);
            lemma_all_in_stable(before, now, done);
            assert(now[at as int] == f);
            lemma_position(now, at as int);
            assert forall|x: int| 0 <= x < next.len() implies now.contains(#[trigger] next[x]) by {
                if x < i {
                    assert(now.contains(done[x]));
                }
            }
            assert(r@ =~= positions(now, next));
        }
    }
    assert(fs.take(n as int) =~= fs);
    r
}

/// Whether every frame is in the table.
spec fn all_in(t: Seq<FrameView>, fs: Seq<FrameView>) -> bool {
    forall|i: int| 0 <= i < fs.len() ==> t.contains(#[trigger] fs[i])
}

/// Positions given out early stay right when the table grows.
proof fn lemma_all_in_stable(a: Seq<FrameView>, b: Seq<FrameView>, fs: Seq<FrameView>)
    requires
        extends(a, b),
        b.no_duplicates(),
        all_in(a, fs),
    ensures
        all_in(b, fs),
        positions(a, fs) == positions(b, fs),
{
    assert forall|i: int| 0 <= i < fs.len() implies b.contains(#[trigger] fs[i]) && a.index_of(fs[i]) == b.index_of(
        fs[i],
    ) by {
        law_place_kept(a, b, fs[i]);
    }
    assert(positions(a, fs) =~= positions(b, fs));
}

/// Whether the stacks are those of the samples, and all their frames are in the table.
spec fn stacks_ok(
    stacks: Seq<Vec<usize>>,
    t: Seq<FrameView>,
    p: ProfileView,
    samples: Seq<SampleView>,
) -> bool {
    &&& stacks.len() == samples.len()
    &&& forall|k: int|
        0 <= k < stacks.len() ==> (#[trigger] stacks[k])@ == positions(t, sample_frames(p, samples[k])) && all_in(
            t,
            sample_frames(p, samples[k]),
        )
}

/// What an export gathers.
struct Gathered {
    table: Vec<Frame>,
    stacks: Vec<Vec<usize>>,
    weights: Vec<i64>,
    total: i128,
}

/// The frames, stacks and weights of the exported samples.
fn gather(profile: &Profile, axis: usize) -> (g: Gathered)
    ensures
        ({
            let p = profile@;
            let samples = exported(p.sample, axis as int);
            let table = frame_table(p, samples);
            &&& frame_views(g.table@) == table
            &&& g.stacks@.len() == samples.len()
            &&& forall|i: int|
                0 <= i < g.stacks@.len() ==> (#[trigger] g.stacks@[i])@ == positions(
                    table,
                    sample_frames(p, samples[i]),
                )
            &&& g.weights@ == exported_values(p.sample, axis as int)
            &&& g.total == total(exported_values(p.sample, axis as int))
        }),
{
    let ghost p = profile@;
    let ghost v = p.sample;
    let index = ProfileIndex::new(profile);
    let mut table: Vec<Frame> = Vec::new();
    let mut cache: HashMap<u64, usize> = HashMap::new();
    let mut stacks: Vec<Vec<usize>> = Vec::new();
    let mut weights: Vec<i64> = Vec::new();
    let mut sum: i128 = 0;
    proof {
        assert(frame_views(table@) =~= Seq::<FrameView>::empty());
        assert(exported_values(v.take(0), axis as int) =~= Seq::<i64>::empty());
    }
    for i in 0..profile.sample.len()
        invariant
            p == profile@,
            v == p.sample,
            index.wf(),
            index.of() == *profile,
            frame_views(table@) == frame_table(p, exported(v.take(i as int), axis as int)),
            frame_views(table@).no_duplicates(),
            cache_ok(cache@, frame_views(table@), p),
            stacks_ok(stacks@, frame_views(table@), p, exported(v.take(i as int), axis as int)),
            weights@ == exported_values(v.take(i as int), axis as int),
            sum == total(weights@),
            0 <= sum <= i * 0x8000_0000_0000_0000,
    {
        let s = &profile.sample[i];
        let ghost done = exported(v.take(i as int), axis as int);
        let ghost next = exported(v.take(i + 1), axis as int);
        proof {
            assert(v.take(i + 1).drop_last() =~= v.take(i as int));
            assert(v.take(i + 1).last() == s@);
            assert(i * 0x8000_0000_0000_0000 < 0x7fff_ffff_ffff_ffff_ffff_ffff_ffff_ffff - 0x8000_0000_0000_0000)
                by (nonlinear_arith)
                requires
                    i < 0xffff_ffff_ffff_ffff,
            ;
        }
        let value: i64 = sample_value(s, axis);
        if value > 0 && s.location_id.len() > 0 {
            let ghost before = frame_views(table@);
            let ghost old_stacks = stacks@;
            let ghost old_weights = weights@;
            let one = enter_stack(&mut table, &mut cache, &index, s);
            stacks.push(one);
            weights.push(value);
            sum = sum + value as i128;
            proof {
                let now = frame_views(table@);
                assert(next == done.push(s@));
                assert(next.drop_last() =~= done);
                assert(weights@ =~= exported_values(v.take(i + 1), axis as int));
                assert(weights@.drop_last() =~= old_weights);
                assert forall|k: int| 0 <= k < stacks@.len() implies (#[trigger] stacks@[k])@ == positions(
                    now,
                    sample_frames(p, next[k]),
                ) && all_in(now, sample_frames(p, next[k])) by {
                    if k < done.len() {
                        assert(stacks@[k] == old_stacks[k]);
                        assert(all_in(before, sample_frames(p, done[k])));
                        lemma_all_in_stable(before, now, sample_frames(p, done[k]));
                    }
                }
            }
        } else {
            assert(next == done);
        }
    }
    assert(v.take(v.len() as int) =~= v);
    Gathered { table, stacks, weights, total: sum }
}

fn frame_to_value(f: &Frame) -> (v: serde_json::Value)
    ensures
        tree(v) == JsonView::Object(frame_members(f@)),
{
    let mut m: Vec<(String, serde_json::Value)> = Vec::new();
    m.push(("name".to_owned(), text_value(f.name.clone())));
    if let Some(s) = &f.file {
        m.push(("file".to_owned(), text_value(s.clone())));
    }
    if let Some(n) = f.line {
        m.push(("line".to_owned(), int_value(n)));
    }
    if let Some(n) = f.col {
        m.push(("col".to_owned(), int_value(n)));
    }
    proof {
        lemma_frame_keys();
        assert(member_trees(m@) =~= frame_members(f@));
    }
    distinct_object(m)
}

fn table_to_value(table: &Vec<Frame>) -> (v: serde_json::Value)
    ensures
        tree(v) == JsonView::Array(frame_trees(frame_views(table@))),
{
    let mut a: Vec<serde_json::Value> = Vec::new();
    for i in 0..table.len()
        invariant
            a@.len() == i,
            forall|k: int| 0 <= k < i ==> tree(#[trigger] a@[k]) == frame_trees(frame_views(table@))[k],
    {
        a.push(frame_to_value(&table[i]));
    }
    assert(trees(a@) =~= frame_trees(frame_views(table@)));
    array_value(a)
}

fn stack_to_value(s: &Vec<usize>) -> (v: serde_json::Value)
    ensures
        tree(v) == JsonView::Array(position_trees(s@)),
{
    let mut a: Vec<serde_json::Value> = Vec::new();
    for i in 0..s.len()
        invariant
            a@.len() == i,
            forall|k: int| 0 <= k < i ==> tree(#[trigger] a@[k]) == position_trees(s@)[k],
    {
        a.push(int_value(s[i] as i64));
    }
    assert(trees(a@) =~= position_trees(s@));
    array_value(a)
}

fn weights_to_value(w: &Vec<i64>) -> (v: serde_json::Value)
    ensures
        tree(v) == JsonView::Array(weight_trees(w@)),
        exact_weights(w@),
{
    let mut a: Vec<serde_json::Value> = Vec::new();
    for i in 0..w.len()
        invariant
            a@.len() == i,
            forall|k: int| 0 <= k < i ==> tree(#[trigger] a@[k]) == weight_trees(w@)[k],
            forall|k: int|
                0 <= k < i && is_short(#[trigger] w@[k] as int) ==> is_exactly(int_bits(w@[k]), w@[k] as int),
    {
        a.push(double_value(w[i]));
    }
    assert(trees(a@) =~= weight_trees(w@));
    array_value(a)
}

fn one_member(key: &str, v: serde_json::Value) -> (r: serde_json::Value)
    ensures
        tree(r) == JsonView::Object(seq![(key@, tree(v))]),
{
    let mut m: Vec<(String, serde_json::Value)> = Vec::new();
    m.push((key.to_owned(), v));
    assert(member_trees(m@) =~= seq![(key@, tree(v))]);
    distinct_object(m)
}

fn sampled_to_value(profile: &Profile, axis: usize, g: &Gathered, name: &str) -> (v: serde_json::Value)
    requires
        axis < profile.sample_type@.len(),
        ({
            let p = profile@;
            let samples = exported(p.sample, axis as int);
            let table = frame_table(p, samples);
            &&& g.stacks@.len() == samples.len()
            &&& forall|i: int|
                0 <= i < g.stacks@.len() ==> (#[trigger] g.stacks@[i])@ == positions(
                    table,
                    sample_frames(p, samples[i]),
                )
            &&& g.weights@ == exported_values(p.sample, axis as int)
            &&& g.total == total(exported_values(p.sample, axis as int))
            &&& is_i64(g.total as int)
        }),
    ensures
        tree(v) == JsonView::Object(
            sampled_members(profile@, axis as int, name@, end_tree(profile@, axis as int)),
        ),
        exact_weights(exported_values(profile@.sample, axis as int)),
        exact_ends(exported_values(profile@.sample, axis as int)),
{
    let ghost p = profile@;
    let ghost samples = exported(p.sample, axis as int);
    let ghost want = stack_trees(p, samples, frame_table(p, samples));
    let mut a: Vec<serde_json::Value> = Vec::new();
    for i in 0..g.stacks.len()
        invariant
            samples == exported(p.sample, axis as int),
            want == stack_trees(p, samples, frame_table(p, samples)),
            g.stacks@.len() == samples.len(),
            forall|i: int|
                0 <= i < g.stacks@.len() ==> (#[trigger] g.stacks@[i])@ == positions(
                    frame_table(p, samples),
                    sample_frames(p, samples[i]),
                ),
            a@.len() == i,
            forall|k: int| 0 <= k < i ==> tree(#[trigger] a@[k]) == want[k],
    {
        assert(g.stacks@[i as int]@ == positions(frame_table(p, samples), sample_frames(p, samples[i as int])));
        a.push(stack_to_value(&g.stacks[i]));
    }
    assert(trees(a@) =~= want);
    let unit = string_at(profile, profile.sample_type[axis].unit);
    let mut m: Vec<(String, serde_json::Value)> = Vec::new();
    m.push(("type".to_owned(), text_value("sampled".to_owned())));
    m.push(("name".to_owned(), text_value(name.to_owned())));
    m.push(("unit".to_owned(), text_value(unit.to_owned())));
    m.push(("startValue".to_owned(), double_value(0)));
    m.push(("endValue".to_owned(), double_value(g.total as i64)));
    m.push(("samples".to_owned(), array_value(a)));
    m.push(("weights".to_owned(), weights_to_value(&g.weights)));
    proof {
        lemma_sampled_keys();
        assert(member_trees(m@) =~= sampled_members(p, axis as int, name@, end_tree(p, axis as int)));
    }
    distinct_object(m)
}

/// What the export of a profile gives.
pub open spec fn exported_as(
    p: ProfileView,
    opts: SpeedscopeExportOptions,
    r: Result<(String, ExportStats), SpeedscopeExportError>,
) -> bool {
    match axis_of(p, opts.value_index) {
        Err(e) => r == Err::<(String, ExportStats), SpeedscopeExportError>(SpeedscopeExportError::Export(e)),
        Ok(axis) => {
            let w = exported_values(p.sample, axis);
            let json = JsonView::Object(file_members(p, axis, opts, end_tree(p, axis)));
            match r {
                Ok((text, stats)) => {
                    &&& is_i64(total(w))
                    &&& pretty_json(json) == Some(text@)
                    &&& stats == export_stats(p.sample, axis)
                    &&& exact_weights(w)
                    &&& exact_ends(w)
                    &&& text_json(text@) matches Some(j) && reads_as(j, json)
                },
                Err(SpeedscopeExportError::Export(e)) => !is_i64(total(w)) && e == ExportError::Overflow,
                Err(SpeedscopeExportError::Json) => is_i64(total(w)) && pretty_json(json) is None,
            }
        },
    }
}

/// Converts a profile to a Speedscope file.
pub fn pprof_to_speedscope(profile: &Profile, opts: &SpeedscopeExportOptions) -> (r: Result<
    (String, ExportStats),
    SpeedscopeExportError,
>)
    ensures
        exported_as(profile@, *opts, r),
{
    let axis: usize = match select_pprof_axis(profile, opts.value_index) {
        Ok(i) => i,
        Err(e) => {
            return Err(SpeedscopeExportError::Export(e));
        },
    };
    let g = gather(profile, axis);
    if !fits_i64(g.total) {
        return Err(SpeedscopeExportError::Export(ExportError::Overflow));
    }
    let stats = ExportStats { stacks: g.stacks.len(), total: g.total as i64 };
    let one = sampled_to_value(profile, axis, &g, opts.profile_name.as_str());
    let mut profiles: Vec<serde_json::Value> = Vec::new();
    profiles.push(one);
    let shared = one_member("frames", table_to_value(&g.table));
    let mut m: Vec<(String, serde_json::Value)> = Vec::new();
    m.push(
        (
            "$schema".to_owned(),
            text_value("https://www.speedscope.app/file-format-schema.json".to_owned()),
        ),
    );
    m.push(("name".to_owned(), text_value(opts.name.clone())));
    m.push(("activeProfileIndex".to_owned(), int_value(0)));
    m.push(("exporter".to_owned(), text_value("moon-pprof".to_owned())));
    m.push(("shared".to_owned(), shared));
    proof {
        assert(trees(profiles@) =~= seq![JsonView::Object(
            sampled_members(profile@, axis as int, opts.profile_name@, end_tree(profile@, axis as int)),
        )]);
    }
    m.push(("profiles".to_owned(), array_value(profiles)));
    proof {
        lemma_file_keys();
        assert(member_trees(m@) =~= file_members(profile@, axis as int, *opts, end_tree(profile@, axis as int)));
    }
    let value = distinct_object(m);
    proof {
        lemma_file_printable(profile@, axis as int, *opts);
    }
    match print_pretty(&value) {
        Ok(text) => Ok((text, stats)),
        Err(_) => Err(SpeedscopeExportError::Json),
    }
}

proof fn lemma_number_plain(n: i64, depth: nat)
    ensures
        is_plain(int_json(n), depth),
        is_short(n as int) ==> is_plain(double_json(n), depth),
{
    reveal_with_fuel(is_plain, 2);
    if is_short(n as int) {
        assert(crate::json::is_short_double(double_json(n)));
    }
}

proof fn lemma_members_plain(m: Seq<(Seq<char>, JsonView)>, depth: nat)
    requires
        depth > 0,
        distinct_keys(m),
        forall|i: int| 0 <= i < m.len() ==> is_plain((#[trigger] m[i]).1, (depth - 1) as nat),
    ensures
        is_plain(JsonView::Object(m), depth),
{
    reveal_with_fuel(is_plain, 2);
}

proof fn lemma_list_plain(a: Seq<JsonView>, depth: nat)
    requires
        depth > 0,
        forall|i: int| 0 <= i < a.len() ==> is_plain(#[trigger] a[i], (depth - 1) as nat),
    ensures
        is_plain(JsonView::Array(a), depth),
{
    reveal_with_fuel(is_plain, 2);
}

proof fn lemma_text_plain(s: Seq<char>, depth: nat)
    ensures
        is_plain(JsonView::Text(s), depth),
{
    reveal_with_fuel(is_plain, 2);
}

proof fn lemma_frame_plain(f: FrameView, depth: nat)
    requires
        depth > 0,
    ensures
        is_plain(JsonView::Object(frame_members(f)), depth),
{
    let m = frame_members(f);
    let d = (depth - 1) as nat;
    lemma_frame_keys();
    lemma_text_plain(f.name, d);
    if let Some(s) = f.file {
        lemma_text_plain(s, d);
    }
    if let Some(n) = f.line {
        lemma_number_plain(n, d);
    }
    if let Some(n) = f.col {
        lemma_number_plain(n, d);
    }
    lemma_members_plain(m, depth);
}

/// The stacks of a file.
pub(crate) proof fn lemma_stacks_plain(p: ProfileView, samples: Seq<SampleView>)
    ensures
        is_plain(JsonView::Array(stack_trees(p, samples, frame_table(p, samples))), 61),
{
    let table = frame_table(p, samples);
    let stacks = stack_trees(p, samples, table);
    assert forall|i: int| 0 <= i < stacks.len() implies is_plain(#[trigger] stacks[i], 60) by {
        let list = position_trees(positions(table, sample_frames(p, samples[i])));
        assert forall|k: int| 0 <= k < list.len() implies is_plain(#[trigger] list[k], 59) by {
            lemma_number_plain(positions(table, sample_frames(p, samples[i]))[k] as i64, 59);
        }
        lemma_list_plain(list, 60);
    }
    lemma_list_plain(stacks, 61);
}

/// The weights of a file.
pub(crate) proof fn lemma_weights_plain(w: Seq<i64>)
    requires
        are_short(w),
    ensures
        is_plain(JsonView::Array(weight_trees(w)), 61),
{
    let weights = weight_trees(w);
    assert forall|i: int| 0 <= i < weights.len() implies is_plain(#[trigger] weights[i], 60) by {
        assert(is_short(w[i] as int));
        lemma_number_plain(w[i], 60);
    }
    lemma_list_plain(weights, 61);
}

/// The frames of a file.
pub(crate) proof fn lemma_shared_plain(table: Seq<FrameView>)
    ensures
        is_plain(JsonView::Object(seq![("frames"@, JsonView::Array(frame_trees(table)))]), 63),
{
    let frames = frame_trees(table);
    assert forall|i: int| 0 <= i < frames.len() implies is_plain(#[trigger] frames[i], 61) by {
        lemma_frame_plain(table[i], 61);
    }
    lemma_list_plain(frames, 62);
    lemma_members_plain(seq![("frames"@, JsonView::Array(frames))], 63);
}

proof fn lemma_double_printable(n: i64, depth: nat)
    ensures
        is_printable(double_json(n), depth),
{
    reveal_with_fuel(is_printable, 2);
    assert(is_double(double_json(n)));
}

proof fn lemma_members_printable(m: Seq<(Seq<char>, JsonView)>, depth: nat)
    requires
        depth > 0,
        distinct_keys(m),
        forall|i: int| 0 <= i < m.len() ==> is_printable((#[trigger] m[i]).1, (depth - 1) as nat),
    ensures
        is_printable(JsonView::Object(m), depth),
{
    reveal_with_fuel(is_printable, 2);
}

proof fn lemma_list_printable(a: Seq<JsonView>, depth: nat)
    requires
        depth > 0,
        forall|i: int| 0 <= i < a.len() ==> is_printable(#[trigger] a[i], (depth - 1) as nat),
    ensures
        is_printable(JsonView::Array(a), depth),
{
    reveal_with_fuel(is_printable, 2);
}

proof fn lemma_text_printable(s: Seq<char>, depth: nat)
    ensures
        is_printable(JsonView::Text(s), depth),
{
    reveal_with_fuel(is_printable, 2);
}

proof fn lemma_file_printable(p: ProfileView, axis: int, opts: SpeedscopeExportOptions)
    ensures
        is_printable(JsonView::Object(file_members(p, axis, opts, end_tree(p, axis))), 64),
{
    let samples = exported(p.sample, axis);
    let w = exported_values(p.sample, axis);
    let table = frame_table(p, samples);
    lemma_stacks_plain(p, samples);
    law_plain_printable(JsonView::Array(stack_trees(p, samples, table)), 61);
    let weights = weight_trees(w);
    assert forall|i: int| 0 <= i < weights.len() implies is_printable(#[trigger] weights[i], 60) by {
        lemma_double_printable(w[i], 60);
    }
    lemma_list_printable(weights, 61);
    let inner = sampled_members(p, axis, opts.profile_name@, end_tree(p, axis));
    lemma_sampled_keys();
    lemma_text_printable("sampled"@, 61);
    lemma_text_printable(opts.profile_name@, 61);
    lemma_text_printable(text_at(p.string_table, p.sample_type[axis].unit), 61);
    lemma_double_printable(0, 61);
    lemma_double_printable(total(w) as i64, 61);
    lemma_members_printable(inner, 62);
    lemma_list_printable(seq![JsonView::Object(inner)], 63);
    lemma_shared_plain(table);
    law_plain_printable(JsonView::Object(seq![("frames"@, JsonView::Array(frame_trees(table)))]), 63);
    lemma_file_keys();
    lemma_text_printable("https://www.speedscope.app/file-format-schema.json"@, 63);
    lemma_text_printable(opts.name@, 63);
    lemma_number_plain(0, 63);
    law_plain_printable(int_json(0), 63);
    lemma_text_printable("moon-pprof"@, 63);
    lemma_members_printable(file_members(p, axis, opts, end_tree(p, axis)), 64);
}

} // verus!

//! Firefox Profiler profiles as pprof.
//!
//! The stack, frame and function tables are walked, and functions and locations with
//! the same content are put together. How frames get their names and how samples are
//! weighed is up to a [`FrameResolver`] and a [`SampleResolver`].
use vstd::prelude::*;
use crate::demangle::Demangler;
use crate::firefox_model::{position, FirefoxProfile, Thread};
use crate::frames::{key_of_stack, law_stack_key_injective, stack_key};
use crate::num::{fits_i64, is_i64};
use crate::pool::{
    entered, extends, key_of_pair, law_entered, law_pair_key_injective, law_place_kept,
    lemma_extends_trans, lemma_position, pair_key, place, TextIndex,
};
use crate::proto::{sample_views, text_at, texts, Line, Sample, SampleView};
use crate::resolver::{
    flat_entry, resolved_views, FrameResolver, ResolvedFrame, ResolvedFrameView, ResolvedSample,
    SampleResolver,
};
use crate::tables::{
    lemma_function_grows, lemma_with_function, tables_ok, with_function, with_lines, Tables,
    TablesView,
};
use crate::tally::{
    counted, counted_sample, first_seen, sum_of, tally_fits, tally_values, total, NodeTally,
};
use crate::text::{append_decimal, append_signed, dec, law_decimal_round_trip, law_signed_decimal, signed_dec};

verus! {

/// Why a profile was not converted.
#[derive(Clone, Copy, Debug, PartialEq, Eq, Structural)]
pub enum BuildError {
    /// The time of a sample does not fit in 64 bits.
    Sample,
    /// Counts or times add up to more than 64 bits hold.
    Overflow,
    /// A sample refers to a stack that is not in the table.
    Stack,
    /// A stack never ends.
    Cycle,
    /// A stack refers to a frame that is not in the tables.
    Frame,
    /// Compression failed.
    Compress,
}

/// What a frame is told apart by: everything that is known of it.
pub open spec fn frame_parts(f: ResolvedFrameView) -> Seq<Seq<char>> {
    seq![f.name, f.file, signed_dec(f.line as int), dec(f.mapping_index as nat), dec(f.address as nat)]
}

/// The text of a frame by which locations are told apart.
pub open spec fn frame_text(f: ResolvedFrameView) -> Seq<char> {
    stack_key(frame_parts(f))
}

pub open spec fn frame_texts(fs: Seq<ResolvedFrameView>) -> Seq<Seq<char>> {
    Seq::new(fs.len(), |i: int| frame_text(fs[i]))
}

/// The text by which locations are told apart.
pub open spec fn canonical(fs: Seq<ResolvedFrameView>) -> Seq<char> {
    stack_key(frame_texts(fs))
}

/// Only frames of the same content share a location.
pub proof fn law_same_content(a: Seq<ResolvedFrameView>, b: Seq<ResolvedFrameView>)
    requires
        canonical(a) == canonical(b),
    ensures
        a == b,
{
    law_stack_key_injective(frame_texts(a), frame_texts(b));
    assert(frame_texts(a).len() == a.len() && frame_texts(b).len() == b.len());
    assert forall|i: int| 0 <= i < a.len() implies a[i] == b[i] by {
        assert(frame_texts(a)[i] == frame_texts(b)[i]);
        let x = frame_parts(a[i]);
        let y = frame_parts(b[i]);
        law_stack_key_injective(x, y);
        assert(x[0] == y[0] && x[1] == y[1] && x[2] == y[2] && x[3] == y[3] && x[4] == y[4]);
        law_signed_decimal(a[i].line as int, b[i].line as int);
        law_decimal_round_trip(a[i].mapping_index as nat);
        law_decimal_round_trip(b[i].mapping_index as nat);
        law_decimal_round_trip(a[i].address as nat);
        law_decimal_round_trip(b[i].address as nat);
    }
    assert(a =~= b);
}

/// What tells functions apart: name and file.
pub open spec fn function_key(f: ResolvedFrameView) -> Seq<char> {
    pair_key(f.name, f.file)
}

/// The tables of a profile under construction.
#[verifier::ext_equal]
pub struct FirefoxTables {
    pub tables: TablesView,
    /// What tells locations apart, one text per location.
    pub keys: Seq<Seq<char>>,
    /// How many mappings there are.
    pub mappings: usize,
}

/// The mapping of a module. What is in no module goes to the first mapping.
pub open spec fn mapping_of(index: usize, mappings: usize) -> u64 {
    if index < mappings {
        (index + 1) as u64
    } else {
        1
    }
}

/// The tables with the function of each frame.
pub open spec fn functions_entered<D: Demangler>(t: TablesView, fs: Seq<ResolvedFrameView>, d: D) -> TablesView
    decreases fs.len(),
{
    if fs.len() == 0 {
        t
    } else {
        let f = fs.last();
        with_function(
            functions_entered(t, fs.drop_last(), d),
            function_key(f),
            d.pretty(f.name),
            f.name,
            f.file,
            0,
        )
    }
}

/// The lines of a location.
pub open spec fn lines_of(keys: Seq<Seq<char>>, fs: Seq<ResolvedFrameView>) -> Seq<Line> {
    Seq::new(
        fs.len(),
        |i: int| Line { function_id: place(keys, function_key(fs[i])), line: fs[i].line, column: 0 },
    )
}

/// The tables with a location for these frames.
pub open spec fn location_entered<D: Demangler>(
    s: FirefoxTables,
    fs: Seq<ResolvedFrameView>,
    d: D,
) -> FirefoxTables {
    let key = canonical(fs);
    if s.keys.contains(key) {
        s
    } else {
        let t = functions_entered(s.tables, fs, d);
        let mapping = if fs.len() == 0 {
            1u64
        } else {
            mapping_of(fs[0].mapping_index, s.mappings)
        };
        let address = if fs.len() == 0 {
            0
        } else {
            fs[0].address
        };
        FirefoxTables {
            tables: with_lines(t, mapping, address, lines_of(t.keys, fs)),
            keys: s.keys.push(key),
            mappings: s.mappings,
        }
    }
}

/// The tables with a location for each entry of a stack.
pub open spec fn stack_entered<D: Demangler>(
    s: FirefoxTables,
    stack: Seq<Seq<ResolvedFrameView>>,
    d: D,
) -> FirefoxTables
    decreases stack.len(),
{
    if stack.len() == 0 {
        s
    } else {
        location_entered(stack_entered(s, stack.drop_last(), d), stack.last(), d)
    }
}

/// A stack as location ids.
pub open spec fn location_ids(keys: Seq<Seq<char>>, stack: Seq<Seq<ResolvedFrameView>>) -> Seq<u64> {
    Seq::new(stack.len(), |i: int| place(keys, canonical(stack[i])))
}

/// The frames of a stack, the top one first.
pub open spec fn chain(frame: Seq<i64>, prefix: Seq<Option<i64>>, id: i64, limit: nat) -> Result<Seq<i64>, BuildError>
    decreases limit,
{
    if !(0 <= id < frame.len()) {
        Err(BuildError::Stack)
    } else if limit == 0 {
        Err(BuildError::Cycle)
    } else {
        match flat_entry(prefix, id) {
            None => Ok(seq![frame[id as int]]),
            Some(up) => match chain(frame, prefix, up, (limit - 1) as nat) {
                Ok(rest) => Ok(seq![frame[id as int]] + rest),
                Err(e) => Err(e),
            },
        }
    }
}

/// The frames of a stack of a thread.
pub open spec fn stack_frames_of(t: Thread, id: i64) -> Result<Seq<i64>, BuildError> {
    chain(t.stack_table.frame@, t.stack_table.prefix@, id, t.stack_table.frame@.len())
}

/// The names of the frames of a stack.
pub open spec fn stack_names<F: FrameResolver>(f: F, p: FirefoxProfile, t: Thread, ids: Seq<i64>) -> Seq<
    Seq<ResolvedFrameView>,
> {
    Seq::new(ids.len(), |i: int| f.names(p, t, ids[i]))
}

/// What holds of the tables at any time.
pub open spec fn firefox_ok(s: FirefoxTables) -> bool {
    &&& tables_ok(s.tables)
    &&& s.keys.no_duplicates()
    &&& s.keys.len() == s.tables.locations.len()
    &&& s.mappings >= 1
    &&& forall|i: int|
        0 <= i < s.tables.locations.len() ==> 1 <= (#[trigger] s.tables.locations[i]).mapping_id <= s.mappings
}

pub(crate) proof fn lemma_functions_entered<D: Demangler>(t: TablesView, fs: Seq<ResolvedFrameView>, d: D)
    requires
        tables_ok(t),
        functions_entered(t, fs, d).functions.len() <= u64::MAX,
    ensures
        tables_ok(functions_entered(t, fs, d)),
        extends(t.keys, functions_entered(t, fs, d).keys),
        extends(t.strings, functions_entered(t, fs, d).strings),
        t.functions.len() <= functions_entered(t, fs, d).functions.len(),
        functions_entered(t, fs, d).locations == t.locations,
    decreases fs.len(),
{
    if fs.len() == 0 {
        assert(t.keys.take(t.keys.len() as int) =~= t.keys);
        assert(t.strings.take(t.strings.len() as int) =~= t.strings);
    } else {
        let r = functions_entered(t, fs.drop_last(), d);
        let f = fs.last();
        let k = function_key(f);
        let q = functions_entered(t, fs, d);
        lemma_functions_entered(t, fs.drop_last(), d);
        law_entered(r.keys, k);
        lemma_function_grows(r, k, d.pretty(f.name), f.name, f.file, 0);
        if r.functions.len() < u64::MAX {
            lemma_with_function(r, k, d.pretty(f.name), f.name, f.file, 0);
        } else {
            assert(q == r);
        }
        lemma_extends_trans(t.keys, r.keys, q.keys);
        lemma_extends_trans(t.strings, r.strings, q.strings);
    }
}

/// A profile under construction.
pub(crate) struct State {
    pub(crate) tables: Tables,
    pub(crate) keys: TextIndex,
    pub(crate) mappings: usize,
}

impl State {
    pub(crate) open spec fn value(&self) -> FirefoxTables {
        FirefoxTables { tables: self.tables@, keys: self.keys.table(), mappings: self.mappings }
    }

    pub(crate) open spec fn wf(&self) -> bool {
        self.tables.wf() && self.keys.wf() && firefox_ok(self.value())
    }
}

fn text_of_frame(f: &ResolvedFrame) -> (r: String)
    ensures
        r@ == frame_text(f@),
{
    let mut line = String::new();
    append_signed(&mut line, f.line);
    let mut mapping = String::new();
    append_decimal(&mut mapping, f.mapping_index as u64);
    let mut address = String::new();
    append_decimal(&mut address, f.address);
    let parts: Vec<String> = vec![f.name.clone(), f.file.clone(), line, mapping, address];
    proof {
        assert(line@ =~= signed_dec(f.line as int));
        assert(mapping@ =~= dec(f.mapping_index as nat));
        assert(address@ =~= dec(f.address as nat));
        assert(texts(parts@) =~= frame_parts(f@));
    }
    key_of_stack(&parts)
}

fn canonical_of(fs: &Vec<ResolvedFrame>) -> (r: String)
    ensures
        r@ == canonical(resolved_views(fs@)),
{
    let mut parts: Vec<String> = Vec::new();
    for i in 0..fs.len()
        invariant
            parts@.len() == i,
            forall|k: int| 0 <= k < i ==> (#[trigger] parts@[k])@ == frame_text(fs@[k]@),
    {
        parts.push(text_of_frame(&fs[i]));
    }
    assert(texts(parts@) =~= frame_texts(resolved_views(fs@)));
    key_of_stack(&parts)
}

/// Enters the functions of the frames, and gives the lines of their location.
fn enter_functions<D: Demangler>(t: &mut Tables, fs: &Vec<ResolvedFrame>, d: &D) -> (lines: Vec<Line>)
    requires
        old(t).wf(),
    ensures
        final(t).wf(),
        final(t)@ == functions_entered(old(t)@, resolved_views(fs@), *d),
        lines@ == lines_of(final(t)@.keys, resolved_views(fs@)),
        forall|j: int|
            0 <= j < lines@.len() ==> 1 <= (#[trigger] lines@[j]).function_id <= final(t)@.functions.len(),
        extends(old(t)@.strings, final(t)@.strings),
{
    let ghost v = resolved_views(fs@);
    let ghost t0 = t@;
    let mut lines: Vec<Line> = Vec::new();
    proof {
        assert(t0.strings.take(t0.strings.len() as int) =~= t0.strings);
    }
    for i in 0..fs.len()
        invariant
            v == resolved_views(fs@),
            t.wf(),
            t@ == functions_entered(t0, v.take(i as int), *d),
            lines@ == lines_of(t@.keys, v.take(i as int)),
            forall|j: int|
                0 <= j < lines@.len() ==> 1 <= (#[trigger] lines@[j]).function_id <= t@.functions.len(),
            forall|j: int| 0 <= j < i ==> t@.keys.contains(function_key(#[trigger] v[j])),
            extends(t0.strings, t@.strings),
    {
        let ghost before = t@;
        let ghost old_lines = lines@;
        let f = &fs[i];
        let key = key_of_pair(f.name.as_str(), f.file.as_str());
        let name = d.demangle(f.name.as_str());
        proof {
            t.lemma_ok();
        }
        let id: u64 = t.function(key, name.as_str(), f.name.as_str(), f.file.as_str(), 0);
        lines.push(Line { function_id: id, line: f.line, column: 0 });
        proof {
            assert(v.take(i + 1).drop_last() =~= v.take(i as int));
            assert(v.take(i + 1).last() == f@);
            t.lemma_ok();
            let k = function_key(f@);
            law_entered(before.keys, k);
            lemma_function_grows(before, k, name@, f@.name, f@.file, 0);
            lemma_extends_trans(t0.strings, before.strings, t@.strings);
            assert forall|j: int| 0 <= j < i + 1 implies t@.keys.contains(function_key(#[trigger] v[j])) && (j < i
                ==> place(before.keys, function_key(v[j])) == place(t@.keys, function_key(v[j]))) by {
                if j < i {
                    law_place_kept(before.keys, t@.keys, function_key(v[j]));
                }
            }
            assert forall|j: int| 0 <= j < i + 1 implies lines@[j] == lines_of(t@.keys, v.take(i + 1))[j] by {
                if j < i {
                    assert(old_lines[j] == lines_of(before.keys, v.take(i as int))[j]);
                    assert(t@.keys.contains(function_key(v[j])));
                }
            }
            assert(lines@ =~= lines_of(t@.keys, v.take(i + 1)));
            assert forall|j: int| 0 <= j < lines@.len() implies 1 <= (#[trigger] lines@[j]).function_id
                <= t@.functions.len() by {
                if j < i {
                    assert(lines@[j] == old_lines[j]);
                }
            }
        }
    }
    assert(v.take(v.len() as int) =~= v);
    lines
}

/// The id of the location of these frames.
fn intern_location<D: Demangler>(s: &mut State, fs: &Vec<ResolvedFrame>, d: &D) -> (id: u64)
    requires
        old(s).wf(),
    ensures
        final(s).wf(),
        final(s).value() == location_entered(old(s).value(), resolved_views(fs@), *d),
        id == place(final(s).value().keys, canonical(resolved_views(fs@))),
        final(s).value().keys.contains(canonical(resolved_views(fs@))),
        1 <= id <= final(s).value().keys.len(),
        extends(old(s).value().keys, final(s).value().keys),
        extends(old(s).value().tables.strings, final(s).value().tables.strings),
        final(s).mappings == old(s).mappings,
{
    let ghost s0 = s.value();
    let key = canonical_of(fs);
    let ghost k = key@;
    proof {
        law_entered(s0.keys, k);
    }
    if let Some(id) = s.keys.get(key.as_str()) {
        assert(s0.tables.strings.take(s0.tables.strings.len() as int) =~= s0.tables.strings);
        return id;
    }
    let mapping: u64 = if fs.len() == 0 {
        1
    } else {
        if fs[0].mapping_index < s.mappings {
            fs[0].mapping_index as u64 + 1
        } else {
            1
        }
    };
    let address: u64 = if fs.len() == 0 {
        0
    } else {
        fs[0].address
    };
    let lines = enter_functions(&mut s.tables, fs, d);
    proof {
        s.tables.lemma_ok();
        lemma_functions_entered(s0.tables, resolved_views(fs@), *d);
    }
    let id: u64 = s.tables.location_lines(mapping, address, lines);
    s.keys.push(key, id);
    proof {
        s.tables.lemma_ok();
        s.keys.lemma_table();
        assert(s.value() =~= location_entered(s0, resolved_views(fs@), *d));
        lemma_position(s.value().keys, s0.keys.len() as int);
        assert forall|i: int| 0 <= i < s.value().tables.locations.len() implies 1 <= (
        #[trigger] s.value().tables.locations[i]).mapping_id <= s.mappings by {
            if i < s0.tables.locations.len() {
                assert(s.value().tables.locations[i] == s0.tables.locations[i]);
            }
        }
    }
    id
}

/// Whether the functions have the names and the files that they are told apart by.
pub open spec fn functions_named(t: TablesView) -> bool {
    t.strings.len() <= i64::MAX ==> forall|i: int|
        0 <= i < t.functions.len() ==> #[trigger] t.keys[i] == pair_key(
            text_at(t.strings, t.functions[i].system_name),
            text_at(t.strings, t.functions[i].filename),
        )
}

/// Whether the location of these frames has their functions and lines.
pub open spec fn is_located(s: FirefoxTables, fs: Seq<ResolvedFrameView>) -> bool {
    let line = s.tables.locations[place(s.keys, canonical(fs)) - 1].line;
    &&& s.keys.contains(canonical(fs))
    &&& line.len() == fs.len()
    &&& forall|j: int|
        0 <= j < fs.len() ==> {
            &&& (#[trigger] line[j]).line == fs[j].line
            &&& 1 <= line[j].function_id <= s.tables.functions.len()
            &&& s.tables.keys[line[j].function_id - 1] == function_key(fs[j])
        }
}

proof fn lemma_function_named<D: Demangler>(t: TablesView, f: ResolvedFrameView, d: D)
    requires
        tables_ok(t),
        functions_named(t),
    ensures
        functions_named(with_function(t, function_key(f), d.pretty(f.name), f.name, f.file, 0)),
{
    let name = d.pretty(f.name);
    let u = with_function(t, function_key(f), name, f.name, f.file, 0);
    lemma_function_grows(t, function_key(f), name, f.name, f.file, 0);
    if !t.keys.contains(function_key(f)) && u.strings.len() <= i64::MAX {
        let s1 = entered(t.strings, name);
        let s2 = entered(s1, f.name);
        law_entered(t.strings, name);
        law_entered(s1, f.name);
        law_entered(s2, f.file);
        let n = t.functions.len() as int;
        assert forall|i: int| 0 <= i < u.functions.len() implies #[trigger] u.keys[i] == pair_key(
            text_at(u.strings, u.functions[i].system_name),
            text_at(u.strings, u.functions[i].filename),
        ) by {
            if i < n {
                let g = t.functions[i];
                assert(u.keys[i] == t.keys[i]);
                assert(u.functions[i] == g);
                assert(u.strings.take(t.strings.len() as int)[g.system_name as int] == u.strings[g.system_name as int]);
                assert(u.strings.take(t.strings.len() as int)[g.filename as int] == u.strings[g.filename as int]);
            } else {
                assert(u.strings.contains(f.name));
                assert(u.strings[u.strings.index_of(f.name)] == f.name);
                assert(u.strings[u.strings.index_of(f.file)] == f.file);
            }
        }
    }
}

proof fn lemma_all_named<D: Demangler>(t: TablesView, fs: Seq<ResolvedFrameView>, d: D)
    requires
        tables_ok(t),
        functions_named(t),
        functions_entered(t, fs, d).functions.len() <= u64::MAX,
    ensures
        functions_named(functions_entered(t, fs, d)),
        forall|j: int|
            0 <= j < fs.len() ==> functions_entered(t, fs, d).keys.contains(function_key(#[trigger] fs[j])),
    decreases fs.len(),
{
    if fs.len() > 0 {
        let front = fs.drop_last();
        let r = functions_entered(t, front, d);
        let f = fs.last();
        let q = functions_entered(t, fs, d);
        lemma_functions_entered(t, fs, d);
        assert(r.functions.len() <= q.functions.len());
        lemma_functions_entered(t, front, d);
        lemma_all_named(t, front, d);
        lemma_function_named(r, f, d);
        law_entered(r.keys, function_key(f));
        lemma_function_grows(r, function_key(f), d.pretty(f.name), f.name, f.file, 0);
        assert forall|j: int| 0 <= j < fs.len() implies q.keys.contains(function_key(#[trigger] fs[j])) by {
            if j < front.len() {
                assert(front[j] == fs[j]);
                assert(r.keys.contains(function_key(front[j])));
            }
        }
    }
}

/// A new location has the functions and lines of its frames, and the others keep theirs.
pub proof fn law_location_entered<D: Demangler>(
    s: FirefoxTables,
    fs: Seq<ResolvedFrameView>,
    other: Seq<ResolvedFrameView>,
    d: D,
)
    requires
        firefox_ok(s),
        functions_named(s.tables),
        location_entered(s, fs, d).tables.functions.len() <= u64::MAX,
        s.keys.len() < u64::MAX,
    ensures
        functions_named(location_entered(s, fs, d).tables),
        !s.keys.contains(canonical(fs)) ==> is_located(location_entered(s, fs, d), fs),
        is_located(s, other) ==> is_located(location_entered(s, fs, d), other),
{
    let r = location_entered(s, fs, d);
    let key = canonical(fs);
    if !s.keys.contains(key) {
        let t = functions_entered(s.tables, fs, d);
        lemma_functions_entered(s.tables, fs, d);
        lemma_all_named(s.tables, fs, d);
        law_entered(s.keys, key);
        let n = s.keys.len() as int;
        assert(r.keys[n] == key);
        lemma_position(r.keys, n);
        let line = r.tables.locations[n].line;
        assert(line == lines_of(t.keys, fs));
        assert forall|j: int| 0 <= j < fs.len() implies {
            &&& (#[trigger] line[j]).line == fs[j].line
            &&& 1 <= line[j].function_id <= r.tables.functions.len()
            &&& r.tables.keys[line[j].function_id - 1] == function_key(fs[j])
        } by {
            assert(t.keys.contains(function_key(fs[j])));
            let k = t.keys.index_of(function_key(fs[j]));
            assert(0 <= k < t.keys.len() && t.keys[k] == function_key(fs[j]));
        }
        if is_located(s, other) {
            assert(extends(s.keys, r.keys));
            law_place_kept(s.keys, r.keys, canonical(other));
            let k = s.keys.index_of(canonical(other));
            assert(0 <= k < s.keys.len());
            assert(r.tables.locations[k] == s.tables.locations[k]);
            let held = s.tables.locations[k].line;
            assert forall|j: int| 0 <= j < other.len() implies {
                &&& (#[trigger] held[j]).line == other[j].line
                &&& 1 <= held[j].function_id <= r.tables.functions.len()
                &&& r.tables.keys[held[j].function_id - 1] == function_key(other[j])
            } by {
                let i = held[j].function_id - 1;
                assert(s.tables.keys.len() == s.tables.functions.len());
                assert(t.keys.take(s.tables.keys.len() as int)[i] == t.keys[i]);
            }
        }
    }
}

/// A new location keeps the tables consistent.
pub(crate) proof fn lemma_location_fine<D: Demangler>(s: FirefoxTables, fs: Seq<ResolvedFrameView>, d: D)
    requires
        firefox_ok(s),
        functions_named(s.tables),
        location_entered(s, fs, d).tables.functions.len() <= u64::MAX,
        s.keys.len() < u64::MAX,
        !s.keys.contains(canonical(fs)),
    ensures
        firefox_ok(location_entered(s, fs, d)),
        s.tables.strings.len() <= location_entered(s, fs, d).tables.strings.len(),
{
    let r = location_entered(s, fs, d);
    let t = functions_entered(s.tables, fs, d);
    let n = s.keys.len() as int;
    lemma_functions_entered(s.tables, fs, d);
    lemma_all_named(s.tables, fs, d);
    law_entered(s.keys, canonical(fs));
    assert(r.tables.locations.len() == n + 1);
    assert forall|j: int| 0 <= j < fs.len() implies 1 <= (#[trigger] r.tables.locations[n].line[j]).function_id
        <= t.functions.len() by {
        assert(t.keys.contains(function_key(fs[j])));
        let k = t.keys.index_of(function_key(fs[j]));
        assert(0 <= k < t.keys.len() && t.keys[k] == function_key(fs[j]));
    }
    assert(tables_ok(r.tables));
}

/// Frames of different content have different locations, with their own functions: frames
/// that differ in the file alone have functions of these files.
pub proof fn law_locations_apart(s: FirefoxTables, a: Seq<ResolvedFrameView>, b: Seq<ResolvedFrameView>)
    requires
        firefox_ok(s),
        functions_named(s.tables),
        is_located(s, a),
        is_located(s, b),
        a != b,
        s.tables.strings.len() <= i64::MAX,
        s.keys.len() <= u64::MAX,
    ensures
        place(s.keys, canonical(a)) != place(s.keys, canonical(b)),
        forall|j: int|
            0 <= j < a.len() ==> text_at(
                s.tables.strings,
                s.tables.functions[(#[trigger] s.tables.locations[place(s.keys, canonical(a)) - 1].line[j]).function_id
                    - 1].filename,
            ) == a[j].file,
{
    if canonical(a) == canonical(b) {
        law_same_content(a, b);
    }
    let x = s.keys.index_of(canonical(a));
    let y = s.keys.index_of(canonical(b));
    assert(0 <= x < s.keys.len() && s.keys[x] == canonical(a));
    assert(0 <= y < s.keys.len() && s.keys[y] == canonical(b));
    let line = s.tables.locations[place(s.keys, canonical(a)) - 1].line;
    assert forall|j: int| 0 <= j < a.len() implies text_at(
        s.tables.strings,
        s.tables.functions[(#[trigger] line[j]).function_id - 1].filename,
    ) == a[j].file by {
        let i = line[j].function_id - 1;
        let g = s.tables.functions[i];
        assert(s.tables.keys[i] == function_key(a[j]));
        law_pair_key_injective(
            a[j].name,
            a[j].file,
            text_at(s.tables.strings, g.system_name),
            text_at(s.tables.strings, g.filename),
        );
    }
}

/// Whether every entry of a stack has a location.
pub(crate) open spec fn stack_known(keys: Seq<Seq<char>>, stack: Seq<Seq<ResolvedFrameView>>) -> bool {
    forall|j: int| 0 <= j < stack.len() ==> keys.contains(canonical(#[trigger] stack[j]))
}

/// Ids given out early stay right when the tables grow.
pub(crate) proof fn lemma_ids_stable(
    a: Seq<Seq<char>>,
    b: Seq<Seq<char>>,
    stack: Seq<Seq<ResolvedFrameView>>,
)
    requires
        extends(a, b),
        b.no_duplicates(),
        stack_known(a, stack),
    ensures
        location_ids(a, stack) == location_ids(b, stack),
        stack_known(b, stack),
{
    assert forall|j: int| 0 <= j < stack.len() implies b.contains(canonical(#[trigger] stack[j])) && place(
        a,
        canonical(stack[j]),
    ) == place(b, canonical(stack[j])) by {
        law_place_kept(a, b, canonical(stack[j]));
    }
    assert(location_ids(a, stack) =~= location_ids(b, stack));
}

/// Whether the resolver knows every frame of a stack.
pub open spec fn all_resolvable<F: FrameResolver>(f: F, p: FirefoxProfile, t: Thread, ids: Seq<i64>) -> bool {
    forall|i: int| 0 <= i < ids.len() ==> f.can(p, t, #[trigger] ids[i])
}

/// Enters the frames of a stack, and gives their location ids. `None` where the
/// resolver does not know one.
fn enter_stack<D: Demangler, F: FrameResolver>(
    s: &mut State,
    f: &F,
    p: &FirefoxProfile,
    t: &Thread,
    ids: &Vec<i64>,
    d: &D,
) -> (r: Option<Vec<u64>>)
    requires
        old(s).wf(),
    ensures
        match r {
            Some(out) => {
                let stack = stack_names(*f, *p, *t, ids@);
                &&& all_resolvable(*f, *p, *t, ids@)
                &&& final(s).wf()
                &&& final(s).value() == stack_entered(old(s).value(), stack, *d)
                &&& out@ == location_ids(final(s).value().keys, stack)
                &&& stack_known(final(s).value().keys, stack)
                &&& extends(old(s).value().keys, final(s).value().keys)
                &&& extends(old(s).value().tables.strings, final(s).value().tables.strings)
                &&& final(s).mappings == old(s).mappings
            },
            None => !all_resolvable(*f, *p, *t, ids@),
        },
{
    let ghost s0 = s.value();
    let ghost stack = stack_names(*f, *p, *t, ids@);
    let mut out: Vec<u64> = Vec::new();
    assert(s0.keys.take(s0.keys.len() as int) =~= s0.keys);
    assert(s0.tables.strings.take(s0.tables.strings.len() as int) =~= s0.tables.strings);
    for i in 0..ids.len()
        invariant
            stack == stack_names(*f, *p, *t, ids@),
            s.wf(),
            forall|k: int| 0 <= k < i ==> f.can(*p, *t, #[trigger] ids@[k]),
            s.value() == stack_entered(s0, stack.take(i as int), *d),
            out@ == location_ids(s.value().keys, stack.take(i as int)),
            stack_known(s.value().keys, stack.take(i as int)),
            extends(s0.keys, s.value().keys),
            extends(s0.tables.strings, s.value().tables.strings),
            s.mappings == s0.mappings,
    {
        let ghost before = s.value();
        let ghost done = stack.take(i as int);
        let ghost next = stack.take(i + 1);
        if !f.can_resolve(p, t, ids[i]) {
            assert(!f.can(*p, *t, ids@[i as int]));
            return None;
        }
        let frames = f.resolve(p, t, ids[i]);
        let id: u64 = intern_location(s, &frames, d);
        out.push(id);
        proof {
            assert(next.drop_last() =~= done);
            assert(next.last() == resolved_views(frames@));
            lemma_extends_trans(s0.keys, before.keys, s.value().keys);
            lemma_extends_trans(s0.tables.strings, before.tables.strings, s.value().tables.strings);
            lemma_ids_stable(before.keys, s.value().keys, done);
            assert forall|x: int| 0 <= x < next.len() implies s.value().keys.contains(
                canonical(#[trigger] next[x]),
            ) by {
                if x < i {
                    assert(s.value().keys.contains(canonical(done[x])));
                }
            }
            assert(out@ =~= location_ids(s.value().keys, next));
        }
    }
    assert(stack.take(stack.len() as int) =~= stack);
    Some(out)
}

/// The frames of a stack.
fn stack_frames(t: &Thread, id: i64) -> (r: Result<Vec<i64>, BuildError>)
    ensures
        match r {
            Ok(ids) => stack_frames_of(*t, id) == Ok::<Seq<i64>, BuildError>(ids@),
            Err(e) => stack_frames_of(*t, id) == Err::<Seq<i64>, BuildError>(e),
        },
{
    let ghost frame = t.stack_table.frame@;
    let ghost prefix = t.stack_table.prefix@;
    let mut acc: Vec<i64> = Vec::new();
    let mut at: i64 = id;
    let mut left: usize = t.stack_table.frame.len();
    proof {
        if chain(frame, prefix, at, left as nat) is Ok {
            assert(acc@ + chain(frame, prefix, at, left as nat)->Ok_0 =~= chain(frame, prefix, at, left as nat)->Ok_0);
        }
    }
    loop
        invariant
            frame == t.stack_table.frame@,
            prefix == t.stack_table.prefix@,
            stack_frames_of(*t, id) == match chain(frame, prefix, at, left as nat) {
                Ok(rest) => Ok::<Seq<i64>, BuildError>(acc@ + rest),
                Err(e) => Err(e),
            },
        decreases left,
    {
        let i: usize = match position(at, t.stack_table.frame.len()) {
            Some(i) => i,
            None => {
                return Err(BuildError::Stack);
            },
        };
        if left == 0 {
            return Err(BuildError::Cycle);
        }
        left -= 1;
        let ghost before = acc@;
        acc.push(t.stack_table.frame[i]);
        let up: Option<i64> = match position(at, t.stack_table.prefix.len()) {
            Some(k) => t.stack_table.prefix[k],
            None => None,
        };
        match up {
            Some(next) => {
                proof {
                    if chain(frame, prefix, next, left as nat) is Ok {
                        let rest = chain(frame, prefix, next, left as nat)->Ok_0;
                        assert(before + (seq![frame[at as int]] + rest) =~= acc@ + rest);
                    }
                }
                at = next;
            },
            None => {
                assert(before + seq![frame[at as int]] =~= acc@);
                return Ok(acc);
            },
        }
    }
}

/// The first `n` samples of a thread that have a stack.
pub open spec fn kept<S: SampleResolver>(s: S, p: FirefoxProfile, t: Thread, n: nat) -> Seq<ResolvedSample>
    decreases n,
{
    if n == 0 {
        Seq::empty()
    } else {
        let before = kept(s, p, t, (n - 1) as nat);
        let one = s.weighed(p, t, (n - 1) as usize);
        if one.stack is Some {
            before.push(one)
        } else {
            before
        }
    }
}

/// The samples of a thread that have a stack.
pub open spec fn thread_kept<S: SampleResolver>(s: S, p: FirefoxProfile, t: Thread) -> Seq<ResolvedSample> {
    kept(s, p, t, t.samples.length as nat)
}

pub open spec fn stacks_of(v: Seq<ResolvedSample>) -> Seq<i64> {
    Seq::new(v.len(), |i: int| v[i].stack.unwrap())
}

pub open spec fn counts_of(v: Seq<ResolvedSample>) -> Seq<i64> {
    Seq::new(v.len(), |i: int| v[i].count)
}

pub open spec fn times_of(v: Seq<ResolvedSample>) -> Seq<i64> {
    Seq::new(v.len(), |i: int| v[i].ns)
}

/// What is wrong with the stack of a leaf.
pub open spec fn leaf_error<F: FrameResolver>(f: F, p: FirefoxProfile, t: Thread, leaf: i64) -> Option<BuildError> {
    match stack_frames_of(t, leaf) {
        Err(e) => Some(e),
        Ok(ids) => if all_resolvable(f, p, t, ids) {
            None
        } else {
            Some(BuildError::Frame)
        },
    }
}

/// What is wrong with the first of the leaves that is wrong.
pub open spec fn leaves_error<F: FrameResolver>(f: F, p: FirefoxProfile, t: Thread, leaves: Seq<i64>) -> Option<
    BuildError,
>
    decreases leaves.len(),
{
    if leaves.len() == 0 {
        None
    } else {
        match leaves_error(f, p, t, leaves.drop_last()) {
            Some(e) => Some(e),
            None => leaf_error(f, p, t, leaves.last()),
        }
    }
}

/// Whether the times of all samples of a thread fit in 64 bits.
pub open spec fn samples_fit<S: SampleResolver>(s: S, p: FirefoxProfile, t: Thread) -> bool {
    forall|i: usize| i < t.samples.length ==> s.can(p, t, i)
}

/// What is wrong with a thread.
pub open spec fn thread_error<F: FrameResolver, S: SampleResolver>(f: F, s: S, p: FirefoxProfile, t: Thread) -> Option<
    BuildError,
> {
    let v = thread_kept(s, p, t);
    if !samples_fit(s, p, t) {
        Some(BuildError::Sample)
    } else if !tally_fits(stacks_of(v), counts_of(v)) || !tally_fits(stacks_of(v), times_of(v)) {
        Some(BuildError::Overflow)
    } else {
        leaves_error(f, p, t, first_seen(stacks_of(v)))
    }
}

/// The time of all samples.
pub open spec fn time_total<S: SampleResolver>(s: S, p: FirefoxProfile, threads: Seq<Thread>) -> int
    decreases threads.len(),
{
    if threads.len() == 0 {
        0
    } else {
        time_total(s, p, threads.drop_last()) + total(times_of(thread_kept(s, p, threads.last())))
    }
}

/// What is wrong with the first of the threads that is wrong.
pub open spec fn threads_error<F: FrameResolver, S: SampleResolver>(
    f: F,
    s: S,
    p: FirefoxProfile,
    threads: Seq<Thread>,
) -> Option<BuildError>
    decreases threads.len(),
{
    if threads.len() == 0 {
        None
    } else {
        match threads_error(f, s, p, threads.drop_last()) {
            Some(e) => Some(e),
            None => match thread_error(f, s, p, threads.last()) {
                Some(e) => Some(e),
                None => if is_i64(time_total(s, p, threads)) {
                    None
                } else {
                    Some(BuildError::Overflow)
                },
            },
        }
    }
}

/// The names of the frames of a leaf's stack.
pub open spec fn leaf_names<F: FrameResolver>(f: F, p: FirefoxProfile, t: Thread, leaf: i64) -> Seq<
    Seq<ResolvedFrameView>,
> {
    stack_names(f, p, t, stack_frames_of(t, leaf)->Ok_0)
}

/// The tables with the stacks of the leaves entered.
pub open spec fn leaves_entered<F: FrameResolver, D: Demangler>(
    s0: FirefoxTables,
    f: F,
    p: FirefoxProfile,
    t: Thread,
    leaves: Seq<i64>,
    d: D,
) -> FirefoxTables
    decreases leaves.len(),
{
    if leaves.len() == 0 {
        s0
    } else {
        stack_entered(
            leaves_entered(s0, f, p, t, leaves.drop_last(), d),
            leaf_names(f, p, t, leaves.last()),
            d,
        )
    }
}

/// The tables with the stacks of the threads entered.
pub open spec fn threads_entered<F: FrameResolver, S: SampleResolver, D: Demangler>(
    s0: FirefoxTables,
    f: F,
    s: S,
    p: FirefoxProfile,
    threads: Seq<Thread>,
    d: D,
) -> FirefoxTables
    decreases threads.len(),
{
    if threads.len() == 0 {
        s0
    } else {
        let t = threads.last();
        leaves_entered(
            threads_entered(s0, f, s, p, threads.drop_last(), d),
            f,
            p,
            t,
            first_seen(stacks_of(thread_kept(s, p, t))),
            d,
        )
    }
}

/// The samples of a thread: one per distinct stack.
pub open spec fn thread_samples<F: FrameResolver, S: SampleResolver>(
    keys: Seq<Seq<char>>,
    f: F,
    s: S,
    p: FirefoxProfile,
    t: Thread,
) -> Seq<SampleView> {
    let v = thread_kept(s, p, t);
    let leaves = first_seen(stacks_of(v));
    Seq::new(
        leaves.len(),
        |i: int|
            counted(
                location_ids(keys, leaf_names(f, p, t, leaves[i])),
                (
                    sum_of(stacks_of(v), counts_of(v), leaves[i]) as i64,
                    sum_of(stacks_of(v), times_of(v), leaves[i]) as i64,
                ),
            ),
    )
}

/// The samples of the threads.
pub open spec fn threads_samples<F: FrameResolver, S: SampleResolver>(
    keys: Seq<Seq<char>>,
    f: F,
    s: S,
    p: FirefoxProfile,
    threads: Seq<Thread>,
) -> Seq<SampleView>
    decreases threads.len(),
{
    if threads.len() == 0 {
        Seq::empty()
    } else {
        threads_samples(keys, f, s, p, threads.drop_last()) + thread_samples(
            keys,
            f,
            s,
            p,
            threads.last(),
        )
    }
}

/// Whether the stacks of a thread all have locations.
pub(crate) open spec fn thread_known<F: FrameResolver, S: SampleResolver>(
    keys: Seq<Seq<char>>,
    f: F,
    s: S,
    p: FirefoxProfile,
    t: Thread,
) -> bool {
    let leaves = first_seen(stacks_of(thread_kept(s, p, t)));
    forall|i: int| 0 <= i < leaves.len() ==> stack_known(keys, leaf_names(f, p, t, #[trigger] leaves[i]))
}

pub(crate) open spec fn threads_known<F: FrameResolver, S: SampleResolver>(
    keys: Seq<Seq<char>>,
    f: F,
    s: S,
    p: FirefoxProfile,
    threads: Seq<Thread>,
) -> bool {
    forall|i: int| 0 <= i < threads.len() ==> thread_known(keys, f, s, p, #[trigger] threads[i])
}

proof fn lemma_thread_stable<F: FrameResolver, S: SampleResolver>(
    a: Seq<Seq<char>>,
    b: Seq<Seq<char>>,
    f: F,
    s: S,
    p: FirefoxProfile,
    t: Thread,
)
    requires
        extends(a, b),
        b.no_duplicates(),
        thread_known(a, f, s, p, t),
    ensures
        thread_known(b, f, s, p, t),
        thread_samples(a, f, s, p, t) == thread_samples(b, f, s, p, t),
{
    let leaves = first_seen(stacks_of(thread_kept(s, p, t)));
    assert forall|i: int| 0 <= i < leaves.len() implies stack_known(
        b,
        leaf_names(f, p, t, #[trigger] leaves[i]),
    ) && location_ids(a, leaf_names(f, p, t, leaves[i])) == location_ids(
        b,
        leaf_names(f, p, t, leaves[i]),
    ) by {
        lemma_ids_stable(a, b, leaf_names(f, p, t, leaves[i]));
    }
    assert(thread_samples(a, f, s, p, t) =~= thread_samples(b, f, s, p, t));
}

proof fn lemma_threads_stable<F: FrameResolver, S: SampleResolver>(
    a: Seq<Seq<char>>,
    b: Seq<Seq<char>>,
    f: F,
    s: S,
    p: FirefoxProfile,
    threads: Seq<Thread>,
)
    requires
        extends(a, b),
        b.no_duplicates(),
        threads_known(a, f, s, p, threads),
    ensures
        threads_known(b, f, s, p, threads),
        threads_samples(a, f, s, p, threads) == threads_samples(b, f, s, p, threads),
    decreases threads.len(),
{
    assert forall|i: int| 0 <= i < threads.len() implies thread_known(b, f, s, p, #[trigger] threads[i]) by {
        lemma_thread_stable(a, b, f, s, p, threads[i]);
    }
    if threads.len() > 0 {
        let n = threads.len() - 1;
        assert forall|i: int| 0 <= i < n implies thread_known(a, f, s, p, #[trigger] threads.drop_last()[i]) by {
            assert(thread_known(a, f, s, p, threads[i]));
        }
        lemma_threads_stable(a, b, f, s, p, threads.drop_last());
        lemma_thread_stable(a, b, f, s, p, threads[n]);
    }
}

/// The distinct stacks of a thread with their counts and times, and the sum of the
/// times.
fn gather<S: SampleResolver>(s: &S, p: &FirefoxProfile, t: &Thread) -> (r: Result<
    (Vec<i64>, Vec<(i64, i64)>, i128),
    BuildError,
>)
    ensures
        ({
            let v = thread_kept(*s, *p, *t);
            match r {
                Ok((leaves, values, sum)) => {
                    &&& samples_fit(*s, *p, *t)
                    &&& tally_fits(stacks_of(v), counts_of(v))
                    &&& tally_fits(stacks_of(v), times_of(v))
                    &&& leaves@ == first_seen(stacks_of(v))
                    &&& values@.len() == leaves@.len()
                    &&& forall|i: int|
                        0 <= i < leaves@.len() ==> (#[trigger] values@[i]).0 == sum_of(
                            stacks_of(v),
                            counts_of(v),
                            leaves@[i],
                        ) && values@[i].1 == sum_of(stacks_of(v), times_of(v), leaves@[i])
                    &&& sum == total(times_of(v))
                },
                Err(BuildError::Sample) => !samples_fit(*s, *p, *t),
                Err(BuildError::Overflow) => samples_fit(*s, *p, *t) && (!tally_fits(stacks_of(v), counts_of(v))
                    || !tally_fits(stacks_of(v), times_of(v))),
                Err(_) => false,
            }
        }),
{
    let n: usize = t.samples.length;
    let mut counts = NodeTally::new();
    let mut times = NodeTally::new();
    let mut sum: i128 = 0;
    proof {
        let v = kept(*s, *p, *t, 0);
        assert(stacks_of(v) =~= Seq::<i64>::empty());
        assert(counts_of(v) =~= Seq::<i64>::empty());
        assert(times_of(v) =~= Seq::<i64>::empty());
    }
    for i in 0..n
        invariant
            n == t.samples.length,
            forall|k: usize| k < i ==> s.can(*p, *t, k),
            counts.wf(),
            times.wf(),
            counts.seen() == stacks_of(kept(*s, *p, *t, i as nat)),
            counts.weights() == counts_of(kept(*s, *p, *t, i as nat)),
            times.seen() == stacks_of(kept(*s, *p, *t, i as nat)),
            times.weights() == times_of(kept(*s, *p, *t, i as nat)),
            kept(*s, *p, *t, i as nat).len() <= i,
            sum == total(times_of(kept(*s, *p, *t, i as nat))),
            -(i * 0x8000_0000_0000_0000) <= sum <= i * 0x8000_0000_0000_0000,
    {
        if !s.can_resolve(p, t, i) {
            assert(!s.can(*p, *t, i));
            return Err(BuildError::Sample);
        }
        let one = s.resolve(p, t, i);
        let ghost done = kept(*s, *p, *t, i as nat);
        let ghost next = kept(*s, *p, *t, (i + 1) as nat);
        proof {
            assert(i * 0x8000_0000_0000_0000 < 0x7fff_ffff_ffff_ffff_ffff_ffff_ffff_ffff - 0x8000_0000_0000_0000)
                by (nonlinear_arith)
                requires
                    i < 0xffff_ffff_ffff_ffff,
            ;
        }
        if let Some(stack) = one.stack {
            proof {
                assert(next == done.push(one));
                assert(stacks_of(next) =~= stacks_of(done).push(stack));
                assert(counts_of(next) =~= counts_of(done).push(one.count));
                assert(times_of(next) =~= times_of(done).push(one.ns));
                assert(times_of(next).drop_last() =~= times_of(done));
            }
            counts.add(stack, one.count);
            times.add(stack, one.ns);
            sum = sum + one.ns as i128;
        }
    }
    let ghost v = thread_kept(*s, *p, *t);
    let (leaves, count_values, _) = match counts.finish() {
        Some(x) => x,
        None => {
            return Err(BuildError::Overflow);
        },
    };
    let (_, time_values, _) = match times.finish() {
        Some(x) => x,
        None => {
            return Err(BuildError::Overflow);
        },
    };
    let mut values: Vec<(i64, i64)> = Vec::new();
    for i in 0..leaves.len()
        invariant
            leaves@ == first_seen(stacks_of(v)),
            tally_fits(stacks_of(v), counts_of(v)),
            tally_fits(stacks_of(v), times_of(v)),
            count_values@ == tally_values(stacks_of(v), counts_of(v)),
            time_values@ == tally_values(stacks_of(v), times_of(v)),
            values@.len() == i,
            forall|k: int|
                0 <= k < i ==> (#[trigger] values@[k]).0 == sum_of(stacks_of(v), counts_of(v), leaves@[k])
                    && values@[k].1 == sum_of(stacks_of(v), times_of(v), leaves@[k]),
    {
        proof {
            let k = first_seen(stacks_of(v))[i as int];
            assert(is_i64(sum_of(stacks_of(v), counts_of(v), first_seen(stacks_of(v))[i as int])));
            assert(is_i64(sum_of(stacks_of(v), times_of(v), first_seen(stacks_of(v))[i as int])));
        }
        values.push((count_values[i].1, time_values[i].1));
    }
    Ok((leaves, values, sum))
}

proof fn lemma_leaves_error_more<F: FrameResolver>(f: F, p: FirefoxProfile, t: Thread, a: Seq<i64>, b: Seq<i64>)
    requires
        leaves_error(f, p, t, a) is Some,
    ensures
        leaves_error(f, p, t, a + b) == leaves_error(f, p, t, a),
    decreases b.len(),
{
    if b.len() == 0 {
        assert(a + b =~= a);
    } else {
        lemma_leaves_error_more(f, p, t, a, b.drop_last());
        assert((a + b).drop_last() =~= a + b.drop_last());
    }
}

/// Whether the samples are those of the leaves.
spec fn samples_ok<F: FrameResolver>(
    out: Seq<Sample>,
    from: int,
    keys: Seq<Seq<char>>,
    f: F,
    p: FirefoxProfile,
    t: Thread,
    leaves: Seq<i64>,
    values: Seq<(i64, i64)>,
) -> bool {
    &&& out.len() == from + leaves.len()
    &&& forall|k: int|
        from <= k < out.len() ==> (#[trigger] out[k])@ == counted(
            location_ids(keys, leaf_names(f, p, t, leaves[k - from])),
            values[k - from],
        ) && stack_known(keys, leaf_names(f, p, t, leaves[k - from]))
}

/// Appends one sample per leaf.
fn add_leaves<F: FrameResolver, D: Demangler>(
    state: &mut State,
    out: &mut Vec<Sample>,
    f: &F,
    p: &FirefoxProfile,
    t: &Thread,
    leaves: &Vec<i64>,
    values: &Vec<(i64, i64)>,
    d: &D,
) -> (r: Result<(), BuildError>)
    requires
        old(state).wf(),
        values@.len() == leaves@.len(),
    ensures
        match r {
            Ok(()) => {
                &&& leaves_error(*f, *p, *t, leaves@) is None
                &&& final(state).wf()
                &&& final(state).value() == leaves_entered(old(state).value(), *f, *p, *t, leaves@, *d)
                &&& extends(old(state).value().keys, final(state).value().keys)
                &&& extends(old(state).value().tables.strings, final(state).value().tables.strings)
                &&& final(state).mappings == old(state).mappings
                &&& final(out)@.take(old(out)@.len() as int) == old(out)@
                &&& samples_ok(
                    final(out)@,
                    old(out)@.len() as int,
                    final(state).value().keys,
                    *f,
                    *p,
                    *t,
                    leaves@,
                    values@,
                )
            },
            Err(e) => leaves_error(*f, *p, *t, leaves@) == Some(e),
        },
{
    let ghost s0 = state.value();
    let ghost out0 = out@;
    let ghost from = out@.len() as int;
    assert(s0.keys.take(s0.keys.len() as int) =~= s0.keys);
    assert(s0.tables.strings.take(s0.tables.strings.len() as int) =~= s0.tables.strings);
    assert(out@.take(from) =~= out0);
    for i in 0..leaves.len()
        invariant
            values@.len() == leaves@.len(),
            from == out0.len(),
            from == old(out)@.len(),
            out0 == old(out)@,
            s0 == old(state).value(),
            state.wf(),
            leaves_error(*f, *p, *t, leaves@.take(i as int)) is None,
            state.value() == leaves_entered(s0, *f, *p, *t, leaves@.take(i as int), *d),
            extends(s0.keys, state.value().keys),
            extends(s0.tables.strings, state.value().tables.strings),
            state.mappings == s0.mappings,
            out@.len() == from + i,
            out@.take(from) == out0,
            samples_ok(out@, from, state.value().keys, *f, *p, *t, leaves@.take(i as int), values@),
    {
        let ghost before = state.value();
        let ghost done = leaves@.take(i as int);
        let ghost next = leaves@.take(i + 1);
        let ghost out1 = out@;
        proof {
            assert(next.drop_last() =~= done);
            assert(next + leaves@.skip(i + 1) =~= leaves@);
        }
        let ids = match stack_frames(t, leaves[i]) {
            Ok(ids) => ids,
            Err(e) => {
                proof {
                    lemma_leaves_error_more(*f, *p, *t, next, leaves@.skip(i + 1));
                }
                return Err(e);
            },
        };
        let location_id = match enter_stack(state, f, p, t, &ids, d) {
            Some(x) => x,
            None => {
                proof {
                    lemma_leaves_error_more(*f, *p, *t, next, leaves@.skip(i + 1));
                }
                return Err(BuildError::Frame);
            },
        };
        out.push(counted_sample(location_id, values[i]));
        proof {
            let now = state.value();
            lemma_extends_trans(s0.keys, before.keys, now.keys);
            lemma_extends_trans(s0.tables.strings, before.tables.strings, now.tables.strings);
            assert(out@.take(from) =~= out0);
            assert forall|k: int| from <= k < out@.len() implies (#[trigger] out@[k])@ == counted(
                location_ids(now.keys, leaf_names(*f, *p, *t, next[k - from])),
                values@[k - from],
            ) && stack_known(now.keys, leaf_names(*f, *p, *t, next[k - from])) by {
                if k < from + i {
                    assert(out@[k] == out1[k]);
                    assert(next[k - from] == done[k - from]);
                    lemma_ids_stable(before.keys, now.keys, leaf_names(*f, *p, *t, done[k - from]));
                } else {
                    assert(next[k - from] == leaves@[i as int]);
                    assert(leaf_names(*f, *p, *t, leaves@[i as int]) == stack_names(*f, *p, *t, ids@));
                }
            }
            assert(samples_ok(out@, from, now.keys, *f, *p, *t, next, values@));
        }
    }
    assert(leaves@.take(leaves@.len() as int) =~= leaves@);
    Ok(())
}

proof fn lemma_threads_error_more<F: FrameResolver, S: SampleResolver>(
    f: F,
    s: S,
    p: FirefoxProfile,
    a: Seq<Thread>,
    b: Seq<Thread>,
)
    requires
        threads_error(f, s, p, a) is Some,
    ensures
        threads_error(f, s, p, a + b) == threads_error(f, s, p, a),
    decreases b.len(),
{
    if b.len() == 0 {
        assert(a + b =~= a);
    } else {
        lemma_threads_error_more(f, s, p, a, b.drop_last());
        assert((a + b).drop_last() =~= a + b.drop_last());
    }
}

/// Enters all threads, and gives their samples and the time of those.
pub(crate) fn add_threads<F: FrameResolver, S: SampleResolver, D: Demangler>(
    state: &mut State,
    f: &F,
    s: &S,
    p: &FirefoxProfile,
    d: &D,
) -> (r: Result<(Vec<Sample>, i64), BuildError>)
    requires
        old(state).wf(),
    ensures
        match r {
            Ok((out, time)) => {
                &&& threads_error(*f, *s, *p, p.threads@) is None
                &&& final(state).wf()
                &&& final(state).value() == threads_entered(old(state).value(), *f, *s, *p, p.threads@, *d)
                &&& extends(old(state).value().tables.strings, final(state).value().tables.strings)
                &&& final(state).mappings == old(state).mappings
                &&& sample_views(out@) == threads_samples(
                    final(state).value().keys,
                    *f,
                    *s,
                    *p,
                    p.threads@,
                )
                &&& threads_known(final(state).value().keys, *f, *s, *p, p.threads@)
                &&& time == time_total(*s, *p, p.threads@)
            },
            Err(e) => threads_error(*f, *s, *p, p.threads@) == Some(e),
        },
{
    let ghost s0 = state.value();
    let ghost all = p.threads@;
    let mut out: Vec<Sample> = Vec::new();
    let mut time: i64 = 0;
    assert(s0.keys.take(s0.keys.len() as int) =~= s0.keys);
    assert(s0.tables.strings.take(s0.tables.strings.len() as int) =~= s0.tables.strings);
    assert(sample_views(out@) =~= Seq::<SampleView>::empty());
    for i in 0..p.threads.len()
        invariant
            all == p.threads@,
            s0 == old(state).value(),
            state.wf(),
            threads_error(*f, *s, *p, all.take(i as int)) is None,
            state.value() == threads_entered(s0, *f, *s, *p, all.take(i as int), *d),
            extends(s0.tables.strings, state.value().tables.strings),
            state.mappings == s0.mappings,
            sample_views(out@) == threads_samples(state.value().keys, *f, *s, *p, all.take(i as int)),
            threads_known(state.value().keys, *f, *s, *p, all.take(i as int)),
            time == time_total(*s, *p, all.take(i as int)),
    {
        let t = &p.threads[i];
        let ghost before = state.value();
        let ghost done = all.take(i as int);
        let ghost next = all.take(i + 1);
        let ghost out1 = out@;
        proof {
            assert(next.drop_last() =~= done);
            assert(next.last() == *t);
            assert(next + all.skip(i + 1) =~= all);
        }
        let (leaves, values, sum) = match gather(s, p, t) {
            Ok(x) => x,
            Err(e) => {
                proof {
                    lemma_threads_error_more(*f, *s, *p, next, all.skip(i + 1));
                }
                return Err(e);
            },
        };
        match add_leaves(state, &mut out, f, p, t, &leaves, &values, d) {
            Ok(()) => {},
            Err(e) => {
                proof {
                    lemma_threads_error_more(*f, *s, *p, next, all.skip(i + 1));
                }
                return Err(e);
            },
        }
        if sum < -0x1_0000_0000_0000_0000 || sum > 0x1_0000_0000_0000_0000 || !fits_i64(time as i128 + sum) {
            proof {
                lemma_threads_error_more(*f, *s, *p, next, all.skip(i + 1));
            }
            return Err(BuildError::Overflow);
        }
        proof {
            let now = state.value();
            lemma_extends_trans(s0.tables.strings, before.tables.strings, now.tables.strings);
            lemma_threads_stable(before.keys, now.keys, *f, *s, *p, done);
            assert(sample_views(out1) =~= sample_views(out@).take(out1.len() as int)) by {
                assert forall|k: int| 0 <= k < out1.len() implies sample_views(out1)[k] == sample_views(out@)[k] by {
                    assert(out@.take(out1.len() as int)[k] == out@[k]);
                }
            }
            let mine = thread_samples(now.keys, *f, *s, *p, *t);
            assert(sample_views(out@) =~= sample_views(out1) + mine) by {
                assert forall|k: int| out1.len() <= k < out@.len() implies sample_views(out@)[k] == mine[k - out1.len()] by {
                    assert(out@[k]@ == counted(
                        location_ids(now.keys, leaf_names(*f, *p, *t, leaves@[k - out1.len()])),
                        values@[k - out1.len()],
                    ));
                }
            }
            assert(thread_known(now.keys, *f, *s, *p, *t)) by {
                assert forall|k: int| 0 <= k < leaves@.len() implies stack_known(
                    now.keys,
                    leaf_names(*f, *p, *t, #[trigger] leaves@[k]),
                ) by {
                    assert(out@[out1.len() + k]@ == out@[out1.len() + k]@);
                }
            }
            assert forall|k: int| 0 <= k < next.len() implies thread_known(
                now.keys,
                *f,
                *s,
                *p,
                #[trigger] next[k],
            ) by {
                if k < i {
                    assert(thread_known(now.keys, *f, *s, *p, done[k]));
                }
            }
        }
        time = (time as i128 + sum) as i64;
    }
    assert(all.take(all.len() as int) =~= all);
    Ok((out, time))
}

} // verus!

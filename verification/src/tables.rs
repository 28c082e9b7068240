//! The string, function and location tables that every converter fills, and what
//! makes the tables of a finished profile consistent.
use vstd::prelude::*;
use crate::pool::{
    entered, extends, law_entered, law_place_kept, lemma_extends_trans, lemma_position, place,
    text_id, StringPool, TextIndex,
};
use crate::proto::{
    location_views, texts, PprofFunction, Line, Location, LocationView, Mapping, ProfileView, SampleView,
    ValueType,
};

verus! {

/// The value of [`Tables`].
#[verifier::ext_equal]
pub struct TablesView {
    pub strings: Seq<Seq<char>>,
    /// What tells functions apart, one key per function.
    pub keys: Seq<Seq<char>>,
    pub functions: Seq<PprofFunction>,
    pub locations: Seq<LocationView>,
}

/// The tables with `s` in the string table.
pub open spec fn with_text(t: TablesView, s: Seq<char>) -> TablesView {
    TablesView { strings: entered(t.strings, s), ..t }
}

/// The tables with the function of this key: unchanged where it is there, else with
/// its texts entered and the function at the end.
pub open spec fn with_function(
    t: TablesView,
    key: Seq<char>,
    name: Seq<char>,
    system_name: Seq<char>,
    filename: Seq<char>,
    start_line: i64,
) -> TablesView {
    if t.keys.contains(key) {
        t
    } else {
        let s1 = entered(t.strings, name);
        let s2 = entered(s1, system_name);
        let s3 = entered(s2, filename);
        TablesView {
            strings: s3,
            keys: t.keys.push(key),
            functions: t.functions.push(
                PprofFunction {
                    id: (t.functions.len() + 1) as u64,
                    name: text_id(s3, name),
                    system_name: text_id(s3, system_name),
                    filename: text_id(s3, filename),
                    start_line,
                },
            ),
            locations: t.locations,
        }
    }
}

/// A location with one line.
pub open spec fn one_line(id: u64, mapping_id: u64, function_id: u64, line: i64, column: i64) -> LocationView {
    LocationView {
        id,
        mapping_id,
        address: 0,
        line: seq![Line { function_id, line, column }],
        is_folded: false,
    }
}

/// The tables with one more location.
pub open spec fn with_location(
    t: TablesView,
    mapping_id: u64,
    function_id: u64,
    line: i64,
    column: i64,
) -> TablesView {
    TablesView {
        locations: t.locations.push(
            one_line((t.locations.len() + 1) as u64, mapping_id, function_id, line, column),
        ),
        ..t
    }
}

/// The one mapping of a profile whose frames are not told apart by binary.
pub open spec fn only_mapping(filename: i64) -> Mapping {
    Mapping {
        id: 1,
        memory_start: 0,
        memory_limit: 0,
        file_offset: 0,
        filename,
        build_id: 0,
        has_functions: true,
        has_filenames: false,
        has_line_numbers: false,
        has_inline_frames: false,
    }
}

/// The one mapping of a profile whose frames are not told apart by binary.
pub fn one_mapping(filename: i64) -> (r: Mapping)
    ensures
        r == only_mapping(filename),
{
    Mapping {
        id: 1,
        memory_start: 0,
        memory_limit: 0,
        file_offset: 0,
        filename,
        build_id: 0,
        has_functions: true,
        has_filenames: false,
        has_line_numbers: false,
        has_inline_frames: false,
    }
}

/// The tables before the first entry: two sample types and the mapping's file name.
pub open spec fn start_tables(
    type0: Seq<char>,
    unit0: Seq<char>,
    type1: Seq<char>,
    unit1: Seq<char>,
    mapping: Seq<char>,
) -> TablesView {
    with_text(
        with_text(with_text(with_text(with_text(empty_tables(), type0), unit0), type1), unit1),
        mapping,
    )
}

/// The tables with one more location of several lines.
pub open spec fn with_lines(t: TablesView, mapping_id: u64, address: u64, line: Seq<Line>) -> TablesView {
    TablesView {
        locations: t.locations.push(
            LocationView {
                id: (t.locations.len() + 1) as u64,
                mapping_id,
                address,
                line,
                is_folded: false,
            },
        ),
        ..t
    }
}

/// Whether `idx` is the index of a string.
pub open spec fn is_text(strings: Seq<Seq<char>>, idx: i64) -> bool {
    0 <= idx < strings.len()
}

/// The string table starts with the empty string and repeats none.
pub open spec fn strings_ok(strings: Seq<Seq<char>>) -> bool {
    strings.len() > 0 && strings[0] == Seq::<char>::empty() && strings.no_duplicates()
}

/// Function ids are one-based places, and their texts are in the string table.
pub open spec fn functions_ok(functions: Seq<PprofFunction>, strings: Seq<Seq<char>>) -> bool {
    forall|i: int|
        0 <= i < functions.len() ==> {
            &&& (#[trigger] functions[i]).id == i + 1
            &&& strings.len() <= i64::MAX ==> is_text(strings, functions[i].name) && is_text(
                strings,
                functions[i].system_name,
            ) && is_text(strings, functions[i].filename)
        }
}

/// Location ids are one-based places, and each line's function is in the table.
pub open spec fn locations_ok(locations: Seq<LocationView>, functions: int) -> bool {
    forall|i: int|
        0 <= i < locations.len() ==> {
            &&& (#[trigger] locations[i]).id == i + 1
            &&& forall|j: int|
                0 <= j < locations[i].line.len() ==> 1 <= (#[trigger] locations[i].line[j]).function_id <= functions
        }
}

/// What holds of the tables at any time.
pub open spec fn tables_ok(t: TablesView) -> bool {
    &&& strings_ok(t.strings)
    &&& t.keys.no_duplicates()
    &&& t.keys.len() == t.functions.len()
    &&& t.functions.len() <= u64::MAX
    &&& t.locations.len() <= u64::MAX
    &&& functions_ok(t.functions, t.strings)
    &&& locations_ok(t.locations, t.functions.len() as int)
}

/// What every converter promises of the profile it builds: ids are one-based
/// places, and the strings, functions and locations that are referred to are there.
pub open spec fn references_ok(p: ProfileView) -> bool {
    &&& strings_ok(p.string_table)
    &&& functions_ok(p.function, p.string_table)
    &&& locations_ok(p.location, p.function.len() as int)
    &&& forall|i: int| 0 <= i < p.mapping.len() ==> (#[trigger] p.mapping[i]).id == i + 1
    &&& forall|i: int| 0 <= i < p.sample.len() ==> sample_ok(#[trigger] p.sample[i], p)
}

/// The same, and the mappings that are referred to are there too.
pub open spec fn profile_ok(p: ProfileView) -> bool {
    &&& references_ok(p)
    &&& forall|i: int| 0 <= i < p.location.len() ==> 1 <= (#[trigger] p.location[i]).mapping_id <= p.mapping.len()
}

/// A sample has a value per sample type, and its locations are in the table.
pub open spec fn sample_ok(s: SampleView, p: ProfileView) -> bool {
    &&& s.value.len() == p.sample_type.len()
    &&& forall|j: int| 0 <= j < s.location_id.len() ==> 1 <= #[trigger] s.location_id[j] <= p.location.len()
}

proof fn lemma_functions_grow(f: Seq<PprofFunction>, strings: Seq<Seq<char>>, more: Seq<Seq<char>>)
    requires
        functions_ok(f, strings),
        strings.len() <= more.len(),
    ensures
        functions_ok(f, more),
{
}

/// Entering a text keeps the tables consistent.
pub proof fn lemma_with_text(t: TablesView, s: Seq<char>)
    requires
        tables_ok(t),
    ensures
        tables_ok(with_text(t, s)),
        with_text(t, s).strings.contains(s),
{
    law_entered(t.strings, s);
    let u = entered(t.strings, s);
    assert(u.take(t.strings.len() as int)[0] == u[0]);
    lemma_functions_grow(t.functions, t.strings, u);
}

/// Entering a function keeps the tables consistent, and the function's id is its
/// key's place.
pub proof fn lemma_with_function(
    t: TablesView,
    key: Seq<char>,
    name: Seq<char>,
    system_name: Seq<char>,
    filename: Seq<char>,
    start_line: i64,
)
    requires
        tables_ok(t),
        t.functions.len() < u64::MAX,
    ensures
        tables_ok(with_function(t, key, name, system_name, filename, start_line)),
        1 <= place(with_function(t, key, name, system_name, filename, start_line).keys, key)
            <= with_function(t, key, name, system_name, filename, start_line).functions.len(),
{
    law_entered(t.keys, key);
    if !t.keys.contains(key) {
        let s1 = entered(t.strings, name);
        let s2 = entered(s1, system_name);
        let s3 = entered(s2, filename);
        lemma_with_text(t, name);
        lemma_with_text(with_text(t, name), system_name);
        lemma_with_text(with_text(with_text(t, name), system_name), filename);
        law_entered(t.strings, name);
        law_entered(s1, system_name);
        law_entered(s2, filename);
    }
}

/// Adding a location keeps the tables consistent.
pub proof fn lemma_with_location(t: TablesView, mapping_id: u64, function_id: u64, line: i64, column: i64)
    requires
        tables_ok(t),
        t.locations.len() < u64::MAX,
        1 <= function_id <= t.functions.len(),
    ensures
        tables_ok(with_location(t, mapping_id, function_id, line, column)),
{
}

/// The fixed strings and the file name are in the table from the start.
pub proof fn lemma_start_tables(
    type0: Seq<char>,
    unit0: Seq<char>,
    type1: Seq<char>,
    unit1: Seq<char>,
    mapping: Seq<char>,
)
    ensures
        ({
            let t = start_tables(type0, unit0, type1, unit1, mapping).strings;
            let s1 = entered(empty_tables().strings, type0);
            let s2 = entered(s1, unit0);
            let s3 = entered(s2, type1);
            let s4 = entered(s3, unit1);
            &&& tables_ok(start_tables(type0, unit0, type1, unit1, mapping))
            &&& t.contains(type0) && t.contains(unit0) && t.contains(type1) && t.contains(unit1) && t.contains(mapping)
            &&& text_id(s1, type0) == text_id(t, type0)
            &&& text_id(s2, unit0) == text_id(t, unit0)
            &&& text_id(s3, type1) == text_id(t, type1)
            &&& text_id(s4, unit1) == text_id(t, unit1)
        }),
{
    let t0 = empty_tables();
    let t1 = with_text(t0, type0);
    let t2 = with_text(t1, unit0);
    let t3 = with_text(t2, type1);
    let t4 = with_text(t3, unit1);
    lemma_with_text(t0, type0);
    lemma_with_text(t1, unit0);
    lemma_with_text(t2, type1);
    lemma_with_text(t3, unit1);
    lemma_with_text(t4, mapping);
    law_entered(t0.strings, type0);
    law_entered(t1.strings, unit0);
    law_entered(t2.strings, type1);
    law_entered(t3.strings, unit1);
    law_entered(t4.strings, mapping);
}

/// The indices of the fixed strings and of the mapping's file name.
pub struct FixedIds {
    pub types: Vec<ValueType>,
    pub default_type: ValueType,
    pub mapping: i64,
}

/// The value types of two sample types.
pub open spec fn sample_types(
    strings: Seq<Seq<char>>,
    type0: Seq<char>,
    unit0: Seq<char>,
    type1: Seq<char>,
    unit1: Seq<char>,
) -> Seq<ValueType> {
    seq![
        ValueType { ty: text_id(strings, type0), unit: text_id(strings, unit0) },
        ValueType { ty: text_id(strings, type1), unit: text_id(strings, unit1) },
    ]
}

/// What the fixed strings were entered under stays right when strings are added.
pub proof fn lemma_fixed_kept(
    a: Seq<Seq<char>>,
    b: Seq<Seq<char>>,
    type0: Seq<char>,
    unit0: Seq<char>,
    type1: Seq<char>,
    unit1: Seq<char>,
    mapping: Seq<char>,
)
    requires
        a == start_tables(type0, unit0, type1, unit1, mapping).strings,
        extends(a, b),
        b.no_duplicates(),
    ensures
        sample_types(a, type0, unit0, type1, unit1) == sample_types(b, type0, unit0, type1, unit1),
        text_id(a, mapping) == text_id(b, mapping),
{
    lemma_start_tables(type0, unit0, type1, unit1, mapping);
    law_text_kept(a, b, type0);
    law_text_kept(a, b, unit0);
    law_text_kept(a, b, type1);
    law_text_kept(a, b, unit1);
    law_text_kept(a, b, mapping);
}

/// The tables under construction.
pub struct Tables {
    strings: StringPool,
    keys: TextIndex,
    functions: Vec<PprofFunction>,
    locations: Vec<Location>,
}

impl View for Tables {
    type V = TablesView;

    closed spec fn view(&self) -> TablesView {
        TablesView {
            strings: self.strings.table(),
            keys: self.keys.table(),
            functions: self.functions@,
            locations: location_views(self.locations@),
        }
    }
}

impl Tables {
    pub closed spec fn wf(&self) -> bool {
        self.strings.wf() && self.keys.wf() && tables_ok(self@)
    }

    /// What holds of the tables at any time.
    pub proof fn lemma_ok(&self)
        requires
            self.wf(),
        ensures
            tables_ok(self@),
    {
    }

    /// Tables that hold the empty string and nothing else.
    pub fn new() -> (r: Tables)
        ensures
            r.wf(),
            r@ == empty_tables(),
    {
        let r = Tables {
            strings: StringPool::new(),
            keys: TextIndex::new(),
            functions: Vec::new(),
            locations: Vec::new(),
        };
        assert(r@ =~= empty_tables());
        r
    }

    /// Tables with two sample types and the mapping's file name entered, and their
    /// indices.
    pub fn start(type0: &str, unit0: &str, type1: &str, unit1: &str, mapping: &str) -> (r: (Tables, FixedIds))
        ensures
            r.0.wf(),
            r.0@ == start_tables(type0@, unit0@, type1@, unit1@, mapping@),
            r.1.types@ == sample_types(r.0@.strings, type0@, unit0@, type1@, unit1@),
            r.1.default_type == r.1.types@[1],
            r.1.mapping == text_id(r.0@.strings, mapping@),
    {
        let mut tables = Tables::new();
        let a: i64 = tables.intern(type0);
        let b: i64 = tables.intern(unit0);
        let c: i64 = tables.intern(type1);
        let d: i64 = tables.intern(unit1);
        let m: i64 = tables.intern(mapping);
        proof {
            lemma_start_tables(type0@, unit0@, type1@, unit1@, mapping@);
        }
        let default_type = ValueType { ty: c, unit: d };
        let mut types: Vec<ValueType> = Vec::new();
        types.push(ValueType { ty: a, unit: b });
        types.push(default_type);
        assert(types@ =~= sample_types(tables@.strings, type0@, unit0@, type1@, unit1@));
        (tables, FixedIds { types, default_type, mapping: m })
    }

    /// The index of `s` in the string table.
    pub fn intern(&mut self, s: &str) -> (id: i64)
        requires
            old(self).wf(),
        ensures
            final(self).wf(),
            final(self)@ == with_text(old(self)@, s@),
            id == text_id(final(self)@.strings, s@),
    {
        proof {
            lemma_with_text(self@, s@);
        }
        let id: i64 = self.strings.intern(s);
        assert(self@ =~= with_text(old(self)@, s@));
        id
    }

    /// The id of the function with this key, if there is one.
    pub fn function_with(&self, key: &str) -> (r: Option<u64>)
        requires
            self.wf(),
        ensures
            match r {
                Some(id) => self@.keys.contains(key@) && id == place(self@.keys, key@),
                None => !self@.keys.contains(key@),
            },
    {
        self.keys.get(key)
    }

    /// The id of the function with this key, which is entered where it is new.
    pub fn function(
        &mut self,
        key: String,
        name: &str,
        system_name: &str,
        filename: &str,
        start_line: i64,
    ) -> (id: u64)
        requires
            old(self).wf(),
        ensures
            final(self).wf(),
            final(self)@ == with_function(old(self)@, key@, name@, system_name@, filename@, start_line),
            id == place(final(self)@.keys, key@),
            1 <= id <= final(self)@.functions.len(),
    {
        let ghost t = self@;
        if let Some(id) = self.keys.get(key.as_str()) {
            proof {
                law_entered(t.keys, key@);
            }
            return id;
        }
        let ghost k = key@;
        let n: usize = self.functions.len();
        let name_id: i64 = self.strings.intern(name);
        let system_id: i64 = self.strings.intern(system_name);
        let file_id: i64 = self.strings.intern(filename);
        self.functions.push(
            PprofFunction { id: 0, name: name_id, system_name: system_id, filename: file_id, start_line },
        );
        let id: u64 = self.functions.len() as u64;
        self.functions[n].id = id;
        self.keys.push(key, id);
        proof {
            let s1 = entered(t.strings, name@);
            let s2 = entered(s1, system_name@);
            law_entered(t.strings, name@);
            law_entered(s1, system_name@);
            law_entered(s2, filename@);
            lemma_with_function(t, k, name@, system_name@, filename@, start_line);
            lemma_position(t.keys.push(k), n as int);
            assert(self@ =~= with_function(t, k, name@, system_name@, filename@, start_line));
        }
        id
    }

    /// Adds a location with one line, and gives its id.
    pub fn location(&mut self, mapping_id: u64, function_id: u64, line: i64, column: i64) -> (id: u64)
        requires
            old(self).wf(),
            1 <= function_id <= old(self)@.functions.len(),
        ensures
            final(self).wf(),
            final(self)@ == with_location(old(self)@, mapping_id, function_id, line, column),
            id == final(self)@.locations.len(),
            id >= 1,
    {
        let ghost t = self@;
        let n: usize = self.locations.len();
        let mut lines: Vec<Line> = Vec::new();
        lines.push(Line { function_id, line, column });
        self.locations.push(
            Location { id: 0, mapping_id, address: 0, line: lines, is_folded: false },
        );
        let id: u64 = self.locations.len() as u64;
        self.locations[n].id = id;
        proof {
            lemma_with_location(t, mapping_id, function_id, line, column);
            assert(self.locations@[n as int]@.line =~= seq![Line { function_id, line, column }]);
            assert(self@ =~= with_location(t, mapping_id, function_id, line, column));
        }
        id
    }

    /// Adds a location of several lines, and gives its id.
    pub fn location_lines(&mut self, mapping_id: u64, address: u64, line: Vec<Line>) -> (id: u64)
        requires
            old(self).wf(),
            forall|j: int|
                0 <= j < line@.len() ==> 1 <= (#[trigger] line@[j]).function_id <= old(self)@.functions.len(),
        ensures
            final(self).wf(),
            final(self)@ == with_lines(old(self)@, mapping_id, address, line@),
            id == final(self)@.locations.len(),
            id >= 1,
    {
        let ghost t = self@;
        let n: usize = self.locations.len();
        self.locations.push(Location { id: 0, mapping_id, address, line, is_folded: false });
        let id: u64 = self.locations.len() as u64;
        self.locations[n].id = id;
        assert(self@ =~= with_lines(t, mapping_id, address, line@));
        id
    }

    /// Number of functions.
    pub fn function_count(&self) -> (n: usize)
        ensures
            n == self@.functions.len(),
    {
        self.functions.len()
    }

    /// Number of locations.
    pub fn location_count(&self) -> (n: usize)
        ensures
            n == self@.locations.len(),
    {
        self.locations.len()
    }

    /// The string, function and location tables.
    pub fn into_parts(self) -> (r: (Vec<String>, Vec<PprofFunction>, Vec<Location>))
        requires
            self.wf(),
        ensures
            texts(r.0@) == self@.strings,
            r.1@ == self@.functions,
            location_views(r.2@) == self@.locations,
            tables_ok(self@),
    {
        (self.strings.into_strings(), self.functions, self.locations)
    }
}

/// A string keeps its index when strings are added.
pub proof fn law_text_kept(a: Seq<Seq<char>>, b: Seq<Seq<char>>, s: Seq<char>)
    requires
        extends(a, b),
        b.no_duplicates(),
        a.contains(s),
    ensures
        b.contains(s),
        text_id(a, s) == text_id(b, s),
{
    law_place_kept(a, b, s);
}

/// Entering a function only adds strings, and adds its key.
pub proof fn lemma_function_grows(
    t: TablesView,
    key: Seq<char>,
    name: Seq<char>,
    system_name: Seq<char>,
    filename: Seq<char>,
    start_line: i64,
)
    requires
        tables_ok(t),
    ensures
        ({
            let u = with_function(t, key, name, system_name, filename, start_line);
            &&& extends(t.strings, u.strings)
            &&& u.keys == entered(t.keys, key)
            &&& t.functions.len() <= u.functions.len() <= t.functions.len() + 1
        }),
{
    if t.keys.contains(key) {
        assert(t.strings.take(t.strings.len() as int) =~= t.strings);
    } else {
        let s1 = entered(t.strings, name);
        let s2 = entered(s1, system_name);
        law_entered(t.strings, name);
        law_entered(s1, system_name);
        law_entered(s2, filename);
        lemma_extends_trans(t.strings, s1, s2);
        lemma_extends_trans(t.strings, s2, entered(s2, filename));
    }
}

/// Tables that hold the empty string and nothing else.
pub open spec fn empty_tables() -> TablesView {
    TablesView {
        strings: seq![Seq::<char>::empty()],
        keys: Seq::empty(),
        functions: Seq::empty(),
        locations: Seq::empty(),
    }
}

} // verus!

//! What the V8 Inspector's CPU and heap profiles share: call frames, and the tables
//! that their nodes are entered in.
use vstd::prelude::*;
use vstd::string::StringExecFns;
use crate::demangle::Demangler;
use crate::pool::{
    entered, extends, law_entered, law_place_kept, lemma_extends_trans, lemma_position, place,
    text_id, NumberIndex,
};
use crate::tables::{
    lemma_function_grows, lemma_start_tables, lemma_with_function, lemma_with_location, sample_types,
    start_tables, tables_ok, with_function, with_location, FixedIds, Tables, TablesView,
};

verus! {

/// A V8 call frame.
#[derive(Clone, Debug)]
pub struct CallFrame {
    /// Function name as V8 reports it. Empty for anonymous functions.
    pub function_name: String,
    /// Script URL, empty for native frames.
    pub url: String,
    /// V8 script id as JSON text: newer versions give a string, older ones a number.
    /// It only tells functions apart.
    pub script_id: String,
    /// Zero-based line number, or negative if unknown.
    pub line_number: i32,
    /// Zero-based column number, or negative if unknown.
    pub column_number: i32,
}

/// The value of a [`CallFrame`].
pub struct CallFrameView {
    pub function_name: Seq<char>,
    pub url: Seq<char>,
    pub script_id: Seq<char>,
    pub line_number: i32,
    pub column_number: i32,
}

impl View for CallFrame {
    type V = CallFrameView;

    open spec fn view(&self) -> CallFrameView {
        CallFrameView {
            function_name: self.function_name@,
            url: self.url@,
            script_id: self.script_id@,
            line_number: self.line_number,
            column_number: self.column_number,
        }
    }
}

/// A node of a call tree: its id and its frame.
pub struct Site {
    pub id: i64,
    pub frame: CallFrameView,
}

/// The name of a function before demangling.
pub open spec fn raw_name(f: CallFrameView) -> Seq<char> {
    if f.function_name.len() == 0 {
        "(anonymous)"@
    } else {
        f.function_name
    }
}

/// What tells functions apart: name, URL and script.
pub open spec fn function_key(f: CallFrameView) -> Seq<char> {
    raw_name(f) + seq!['\u{1f}'] + f.url + seq!['\u{1f}'] + f.script_id
}

/// A one-based line number, 0 if unknown.
pub open spec fn source_line(line_number: i32) -> i64 {
    if line_number >= 0 {
        (line_number + 1) as i64
    } else {
        0
    }
}

/// The value of [`SiteTables`].
#[verifier::ext_equal]
pub struct SiteTablesView {
    pub tables: TablesView,
    /// Node ids, one per location.
    pub nodes: Seq<i64>,
}

/// The tables with a location for the node: unchanged where it has one, else with its
/// function entered and the location at the end.
pub open spec fn site_entered<D: Demangler>(s: SiteTablesView, site: Site, d: D) -> SiteTablesView {
    if s.nodes.contains(site.id) {
        s
    } else {
        let f = site.frame;
        let key = function_key(f);
        let line = source_line(f.line_number);
        let t = with_function(s.tables, key, d.pretty(raw_name(f)), raw_name(f), f.url, line);
        SiteTablesView {
            tables: with_location(t, 1, place(t.keys, key), line, 0),
            nodes: s.nodes.push(site.id),
        }
    }
}

/// The tables with a location for each node.
pub open spec fn sites_entered<D: Demangler>(s: SiteTablesView, sites: Seq<Site>, d: D) -> SiteTablesView
    decreases sites.len(),
{
    if sites.len() == 0 {
        s
    } else {
        site_entered(sites_entered(s, sites.drop_last(), d), sites.last(), d)
    }
}

/// The tables before the first node.
pub open spec fn start_sites(
    type0: Seq<char>,
    unit0: Seq<char>,
    type1: Seq<char>,
    unit1: Seq<char>,
    mapping: Seq<char>,
) -> SiteTablesView {
    SiteTablesView {
        tables: start_tables(type0, unit0, type1, unit1, mapping),
        nodes: Seq::empty(),
    }
}

/// The file name of the mapping: empty where none was given.
pub open spec fn mapping_text(m: Option<String>) -> Seq<char> {
    match m {
        Some(s) => s@,
        None => Seq::empty(),
    }
}

/// What holds of the tables at any time.
pub open spec fn sites_ok(s: SiteTablesView) -> bool {
    &&& tables_ok(s.tables)
    &&& s.nodes.no_duplicates()
    &&& s.nodes.len() == s.tables.locations.len()
    &&& s.tables.functions.len() <= s.tables.locations.len()
    &&& forall|i: int| 0 <= i < s.tables.locations.len() ==> (#[trigger] s.tables.locations[i]).mapping_id == 1
}

/// Entering a node keeps the tables consistent and only adds to them.
pub proof fn lemma_site_entered<D: Demangler>(s: SiteTablesView, site: Site, d: D)
    requires
        sites_ok(s),
        s.nodes.len() < u64::MAX,
    ensures
        sites_ok(site_entered(s, site, d)),
        site_entered(s, site, d).nodes == entered(s.nodes, site.id),
        extends(s.nodes, site_entered(s, site, d).nodes),
        extends(s.tables.strings, site_entered(s, site, d).tables.strings),
{
    law_entered(s.nodes, site.id);
    if s.nodes.contains(site.id) {
        assert(s.tables.strings.take(s.tables.strings.len() as int) =~= s.tables.strings);
    } else {
        let f = site.frame;
        let key = function_key(f);
        let line = source_line(f.line_number);
        let name = d.pretty(raw_name(f));
        lemma_with_function(s.tables, key, name, raw_name(f), f.url, line);
        lemma_function_grows(s.tables, key, name, raw_name(f), f.url, line);
        let t = with_function(s.tables, key, name, raw_name(f), f.url, line);
        lemma_with_location(t, 1, place(t.keys, key), line, 0);
    }
}

/// Entering nodes keeps the tables consistent, only adds to them, and gives each node
/// its place.
pub proof fn lemma_sites_entered<D: Demangler>(s: SiteTablesView, sites: Seq<Site>, d: D)
    requires
        sites_ok(s),
        sites_entered(s, sites, d).nodes.len() <= u64::MAX,
    ensures
        sites_ok(sites_entered(s, sites, d)),
        extends(s.nodes, sites_entered(s, sites, d).nodes),
        extends(s.tables.strings, sites_entered(s, sites, d).tables.strings),
        forall|i: int| 0 <= i < sites.len() ==> sites_entered(s, sites, d).nodes.contains((#[trigger] sites[i]).id),
    decreases sites.len(),
{
    if sites.len() == 0 {
        assert(s.nodes.take(s.nodes.len() as int) =~= s.nodes);
        assert(s.tables.strings.take(s.tables.strings.len() as int) =~= s.tables.strings);
    } else {
        let r = sites_entered(s, sites.drop_last(), d);
        let q = sites_entered(s, sites, d);
        lemma_sites_entered(s, sites.drop_last(), d);
        law_entered(r.nodes, sites.last().id);
        if r.nodes.len() < u64::MAX {
            lemma_site_entered(r, sites.last(), d);
        } else {
            assert(q == r);
            assert(r.nodes.take(r.nodes.len() as int) =~= r.nodes);
            assert(r.tables.strings.take(r.tables.strings.len() as int) =~= r.tables.strings);
        }
        lemma_extends_trans(s.nodes, r.nodes, q.nodes);
        lemma_extends_trans(s.tables.strings, r.tables.strings, q.tables.strings);
        assert forall|i: int| 0 <= i < sites.len() implies q.nodes.contains((#[trigger] sites[i]).id) by {
            if i < sites.len() - 1 {
                assert(r.nodes.contains(sites.drop_last()[i].id));
                law_place_kept(r.nodes, q.nodes, sites[i].id);
            }
        }
    }
}

/// The tables that the nodes of a call tree are entered in.
pub struct SiteTables {
    tables: Tables,
    nodes: NumberIndex,
}

impl View for SiteTables {
    type V = SiteTablesView;

    closed spec fn view(&self) -> SiteTablesView {
        SiteTablesView { tables: self.tables@, nodes: self.nodes.table() }
    }
}

impl SiteTables {
    pub closed spec fn wf(&self) -> bool {
        self.tables.wf() && self.nodes.wf() && sites_ok(self@)
    }

    pub proof fn lemma_ok(&self)
        requires
            self.wf(),
        ensures
            sites_ok(self@),
    {
    }

    /// Tables with the two sample types and the file name entered, and their indices.
    pub fn new(type0: &str, unit0: &str, type1: &str, unit1: &str, mapping: &str) -> (r: (SiteTables, FixedIds))
        ensures
            r.0.wf(),
            r.0@ == start_sites(type0@, unit0@, type1@, unit1@, mapping@),
            r.1.types@ == sample_types(r.0@.tables.strings, type0@, unit0@, type1@, unit1@),
            r.1.default_type == r.1.types@[1],
            r.1.mapping == text_id(r.0@.tables.strings, mapping@),
    {
        let (tables, fixed) = Tables::start(type0, unit0, type1, unit1, mapping);
        proof {
            lemma_start_tables(type0@, unit0@, type1@, unit1@, mapping@);
        }
        let s = SiteTables { tables, nodes: NumberIndex::new() };
        assert(s@ =~= start_sites(type0@, unit0@, type1@, unit1@, mapping@));
        (s, fixed)
    }

    fn intern_function<D: Demangler>(&mut self, f: &CallFrame, d: &D) -> (id: u64)
        requires
            old(self).tables.wf(),
        ensures
            final(self).tables.wf(),
            final(self).nodes == old(self).nodes,
            final(self).tables@ == with_function(
                old(self).tables@,
                function_key(f@),
                d.pretty(raw_name(f@)),
                raw_name(f@),
                f@.url,
                source_line(f.line_number),
            ),
            id == place(final(self).tables@.keys, function_key(f@)),
            1 <= id <= final(self).tables@.functions.len(),
    {
        let raw: &str = if f.function_name.as_str().is_empty() {
            "(anonymous)"
        } else {
            f.function_name.as_str()
        };
        let mut key = raw.to_owned();
        key.push('\u{1f}');
        key.append(f.url.as_str());
        key.push('\u{1f}');
        key.append(f.script_id.as_str());
        assert(key@ =~= function_key(f@));
        let line: i64 = if f.line_number >= 0 {
            f.line_number as i64 + 1
        } else {
            0
        };
        let name = d.demangle(raw);
        self.tables.function(key, name.as_str(), raw, f.url.as_str(), line)
    }

    /// The id of the location of a node.
    pub fn intern_location<D: Demangler>(&mut self, node: i64, f: &CallFrame, d: &D) -> (id: u64)
        requires
            old(self).wf(),
        ensures
            final(self).wf(),
            final(self)@ == site_entered(old(self)@, Site { id: node, frame: f@ }, *d),
            id == place(final(self)@.nodes, node),
            final(self)@.nodes.contains(node),
            1 <= id <= final(self)@.nodes.len(),
            extends(old(self)@.nodes, final(self)@.nodes),
            extends(old(self)@.tables.strings, final(self)@.tables.strings),
    {
        let ghost s = self@;
        let ghost site = Site { id: node, frame: f@ };
        if let Some(id) = self.nodes.get(node) {
            proof {
                law_entered(s.nodes, node);
                assert(s.tables.strings.take(s.tables.strings.len() as int) =~= s.tables.strings);
            }
            return id;
        }
        let fid: u64 = self.intern_function(f, d);
        let line: i64 = if f.line_number >= 0 {
            f.line_number as i64 + 1
        } else {
            0
        };
        let id: u64 = self.tables.location(1, fid, line, 0);
        self.nodes.push(node, id);
        proof {
            assert(self@ =~= site_entered(s, site, *d));
            lemma_site_entered(s, site, *d);
            lemma_position(self@.nodes, s.nodes.len() as int);
        }
        id
    }

    /// The id of the location of a node that has been entered.
    pub fn location_of(&self, node: i64) -> (r: Option<u64>)
        requires
            self.wf(),
        ensures
            match r {
                Some(id) => self@.nodes.contains(node) && id == place(self@.nodes, node),
                None => !self@.nodes.contains(node),
            },
    {
        self.nodes.get(node)
    }

    pub fn function_count(&self) -> (n: usize)
        ensures
            n == self@.tables.functions.len(),
    {
        self.tables.function_count()
    }

    pub fn location_count(&self) -> (n: usize)
        ensures
            n == self@.tables.locations.len(),
    {
        self.tables.location_count()
    }

    pub fn into_tables(self) -> (r: Tables)
        requires
            self.wf(),
        ensures
            r.wf(),
            r@ == self@.tables,
            sites_ok(self@),
    {
        self.tables
    }
}

} // verus!

//! What the location of a V8 node shows: the node's own call frame.
use vstd::prelude::*;
use crate::demangle::Demangler;
use crate::leads::{file_of, leads_to, lemma_function_texts, name_of, says, system_of, texts_kept};
use crate::pool::{law_entered, lemma_position, place};
use crate::proto::ProfileView;
use crate::tables::{lemma_function_grows, lemma_start_tables, lemma_with_function, with_function};
use crate::v8::{
    function_key, lemma_site_entered, raw_name, site_entered, sites_entered, sites_ok, source_line,
    start_sites, CallFrameView, Site, SiteTablesView,
};

verus! {

/// The name that V8 gives a function, and `(anonymous)` where it gives none.
pub open spec fn given_name(f: CallFrameView) -> Seq<char> {
    if f.function_name =~= Seq::empty() {
        "(anonymous)"@
    } else {
        f.function_name
    }
}

/// Whether a location shows a call frame: its function has the frame's demangled name and
/// its URL, and V8's zero-based line counts from one. An unknown line is 0.
pub open spec fn frame_shown<D: Demangler>(p: ProfileView, id: u64, f: CallFrameView, d: D) -> bool {
    &&& leads_to(
        p,
        id,
        d.pretty(given_name(f)),
        f.url,
        if f.line_number < 0 {
            0
        } else {
            f.line_number + 1
        },
    )
    &&& says(p, p.function[p.location[id - 1].line[0].function_id - 1].system_name, given_name(f))
    &&& p.location[id - 1].mapping_id == 1
}

/// Whether texts hold no separator.
pub open spec fn is_plain(f: CallFrameView) -> bool {
    !f.function_name.contains('\u{1f}') && !f.url.contains('\u{1f}')
}

proof fn lemma_raw_plain(f: CallFrameView)
    requires
        is_plain(f),
    ensures
        !raw_name(f).contains('\u{1f}'),
{
    let a = "(anonymous)"@;
    reveal_strlit("(anonymous)");
    assert(!a.contains('\u{1f}')) by {
        assert forall|i: int| 0 <= i < a.len() implies a[i] != '\u{1f}' by {}
    }
}

spec fn keyed(a: Seq<char>, b: Seq<char>, c: Seq<char>) -> Seq<char> {
    a + seq!['\u{1f}'] + b + seq!['\u{1f}'] + c
}

proof fn lemma_keyed(a: Seq<char>, b: Seq<char>, c: Seq<char>, x: Seq<char>, y: Seq<char>, z: Seq<char>)
    requires
        keyed(a, b, c) == keyed(x, y, z),
        !a.contains('\u{1f}'),
        !b.contains('\u{1f}'),
        !x.contains('\u{1f}'),
        !y.contains('\u{1f}'),
    ensures
        a == x,
        b == y,
{
    let p = keyed(a, b, c);
    let q = keyed(x, y, z);
    assert(p[a.len() as int] == '\u{1f}');
    assert(q[x.len() as int] == '\u{1f}');
    if a.len() < x.len() {
        assert(x[a.len() as int] == q[a.len() as int]);
    }
    if x.len() < a.len() {
        assert(a[x.len() as int] == p[x.len() as int]);
    }
    assert(a =~= p.take(a.len() as int));
    assert(x =~= q.take(x.len() as int));
    let n: int = a.len() as int + 1;
    assert(p[n + b.len()] == '\u{1f}');
    assert(q[n + y.len()] == '\u{1f}');
    if b.len() < y.len() {
        assert(y[b.len() as int] == q[n + b.len()]);
    }
    if y.len() < b.len() {
        assert(b[y.len() as int] == p[n + y.len()]);
    }
    assert(b =~= p.subrange(n, n + b.len()));
    assert(y =~= q.subrange(n, n + y.len()));
}

spec fn key_of(s: SiteTablesView, g: int, script: Seq<char>) -> bool {
    s.tables.keys[g] == keyed(system_of(s.tables, g), file_of(s.tables, g), script)
}

spec fn function_row<D: Demangler>(s: SiteTablesView, g: int, d: D) -> bool {
    &&& name_of(s.tables, g) == d.pretty(system_of(s.tables, g))
    &&& !system_of(s.tables, g).contains('\u{1f}')
    &&& !file_of(s.tables, g).contains('\u{1f}')
    &&& exists|script: Seq<char>| key_of(s, g, script)
}

spec fn node_row(s: SiteTablesView, i: int, frame: CallFrameView) -> bool {
    let l = s.tables.locations[i];
    let g = l.line[0].function_id - 1;
    &&& l.line.len() == 1
    &&& l.line[0].line == source_line(frame.line_number)
    &&& 0 <= g < s.tables.functions.len()
    &&& system_of(s.tables, g) == raw_name(frame)
    &&& file_of(s.tables, g) == frame.url
}

/// Whether the locations show the frames of their nodes.
pub(crate) closed spec fn sited<D: Demangler>(s: SiteTablesView, frames: spec_fn(i64) -> CallFrameView, d: D) -> bool {
    &&& sites_ok(s)
    &&& forall|g: int| 0 <= g < s.tables.functions.len() ==> #[trigger] function_row(s, g, d)
    &&& forall|i: int| 0 <= i < s.nodes.len() ==> #[trigger] node_row(s, i, frames(s.nodes[i]))
}

proof fn lemma_site<D: Demangler>(s: SiteTablesView, site: Site, frames: spec_fn(i64) -> CallFrameView, d: D)
    requires
        sited(s, frames, d),
        s.nodes.len() < u64::MAX,
        site.frame == frames(site.id),
        is_plain(site.frame),
        site_entered(s, site, d).tables.strings.len() <= i64::MAX,
    ensures
        sited(site_entered(s, site, d), frames, d),
{
    let r = site_entered(s, site, d);
    lemma_site_entered(s, site, d);
    if !s.nodes.contains(site.id) {
        let f = site.frame;
        let key = function_key(f);
        let line = source_line(f.line_number);
        let name = d.pretty(raw_name(f));
        let t = s.tables;
        let u = with_function(t, key, name, raw_name(f), f.url, line);
        let n = t.functions.len() as int;
        lemma_with_function(t, key, name, raw_name(f), f.url, line);
        lemma_function_grows(t, key, name, raw_name(f), f.url, line);
        lemma_function_texts(t, key, name, raw_name(f), f.url, line);
        lemma_raw_plain(f);
        law_entered(t.keys, key);
        assert(key =~= keyed(raw_name(f), f.url, f.script_id));
        assert forall|g: int| 0 <= g < r.tables.functions.len() implies #[trigger] function_row(r, g, d) by {
            if g < n {
                assert(function_row(s, g, d));
                assert(texts_kept(t, u, g));
                let script = choose|script: Seq<char>| key_of(s, g, script);
                assert(u.keys[g] == t.keys[g]);
                assert(key_of(r, g, script));
            } else {
                assert(u.keys[n] == key);
                assert(key_of(r, g, f.script_id));
            }
        }
        let g = u.keys.index_of(key);
        assert(u.keys.contains(key));
        assert(0 <= g < u.keys.len() && u.keys[g] == key);
        lemma_position(u.keys, g);
        assert(place(u.keys, key) == g + 1);
        assert(function_row(r, g, d));
        let script = choose|script: Seq<char>| key_of(r, g, script);
        lemma_keyed(system_of(r.tables, g), file_of(r.tables, g), script, raw_name(f), f.url, f.script_id);
        assert forall|i: int| 0 <= i < r.nodes.len() implies #[trigger] node_row(r, i, frames(r.nodes[i])) by {
            if i < s.nodes.len() {
                assert(node_row(s, i, frames(s.nodes[i])));
                let h = t.locations[i].line[0].function_id - 1;
                assert(texts_kept(t, u, h));
                assert(r.tables.locations[i] == t.locations[i]);
            }
        }
    }
}

/// Entering a node takes no string out.
proof fn lemma_site_grows<D: Demangler>(s: SiteTablesView, site: Site, d: D)
    ensures
        s.tables.strings.len() <= site_entered(s, site, d).tables.strings.len(),
        s.nodes.len() <= site_entered(s, site, d).nodes.len(),
{
}

pub(crate) proof fn lemma_one_location_each<D: Demangler>(s: SiteTablesView, sites: Seq<Site>, d: D)
    ensures
        sites_entered(s, sites, d).nodes.len() - s.nodes.len() == sites_entered(s, sites, d).tables.locations.len()
            - s.tables.locations.len(),
    decreases sites.len(),
{
    if sites.len() > 0 {
        lemma_one_location_each(s, sites.drop_last(), d);
    }
}

pub(crate) proof fn lemma_sites_grow<D: Demangler>(s: SiteTablesView, sites: Seq<Site>, d: D)
    ensures
        s.tables.strings.len() <= sites_entered(s, sites, d).tables.strings.len(),
        s.nodes.len() <= sites_entered(s, sites, d).nodes.len(),
    decreases sites.len(),
{
    if sites.len() > 0 {
        lemma_sites_grow(s, sites.drop_last(), d);
        lemma_site_grows(sites_entered(s, sites.drop_last(), d), sites.last(), d);
    }
}

pub(crate) proof fn lemma_sited<D: Demangler>(
    s: SiteTablesView,
    sites: Seq<Site>,
    frames: spec_fn(i64) -> CallFrameView,
    d: D,
)
    requires
        sited(s, frames, d),
        forall|i: int|
            0 <= i < sites.len() ==> (#[trigger] sites[i]).frame == frames(sites[i].id) && is_plain(sites[i].frame),
        sites_entered(s, sites, d).tables.strings.len() <= i64::MAX,
        sites_entered(s, sites, d).nodes.len() <= u64::MAX,
    ensures
        sited(sites_entered(s, sites, d), frames, d),
    decreases sites.len(),
{
    if sites.len() > 0 {
        let front = sites.drop_last();
        let r = sites_entered(s, front, d);
        lemma_site_grows(r, sites.last(), d);
        lemma_sited(s, front, frames, d);
        assert(sites[sites.len() - 1] == sites.last());
        if r.nodes.contains(sites.last().id) {
            assert(site_entered(r, sites.last(), d) == r);
        } else {
            lemma_site(r, sites.last(), frames, d);
        }
    }
}

pub(crate) proof fn lemma_start_sited<D: Demangler>(
    type0: Seq<char>,
    unit0: Seq<char>,
    type1: Seq<char>,
    unit1: Seq<char>,
    mapping: Seq<char>,
    frames: spec_fn(i64) -> CallFrameView,
    d: D,
)
    ensures
        sited(start_sites(type0, unit0, type1, unit1, mapping), frames, d),
{
    lemma_start_tables(type0, unit0, type1, unit1, mapping);
}

/// The location of a node shows the node's frame.
pub(crate) proof fn lemma_node_shown<D: Demangler>(
    s: SiteTablesView,
    p: ProfileView,
    id: i64,
    frames: spec_fn(i64) -> CallFrameView,
    d: D,
)
    requires
        sited(s, frames, d),
        s.nodes.contains(id),
        s.tables.strings.len() <= i64::MAX,
        p.string_table == s.tables.strings,
        p.function == s.tables.functions,
        p.location == s.tables.locations,
    ensures
        frame_shown(p, place(s.nodes, id), frames(id), d),
{
    let i = s.nodes.index_of(id);
    assert(0 <= i < s.nodes.len() && s.nodes[i] == id);
    lemma_position(s.nodes, i);
    assert(node_row(s, i, frames(s.nodes[i])));
    let g = s.tables.locations[i].line[0].function_id - 1;
    assert(function_row(s, g, d));
    assert(s.tables.functions[g].id == g + 1);
    assert(s.tables.locations[i].id == i + 1);
}

} // verus!

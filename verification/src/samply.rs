//! Names for samply's profiles, whose frames are addresses. A `.syms.json` file beside
//! the profile maps the address ranges of each module to symbols and inline chains.
use vstd::prelude::*;
use vstd::hash_map::StringHashMap;
use vstd::string::StringExecFns;
use crate::firefox_model::{entry, position, FirefoxProfile, Thread};
use crate::proto::{text_at, texts};
use crate::resolver::{
    address_of, frame_address, resolved_views, FrameResolver, ResolvedFrame, ResolvedFrameView,
};
use crate::text::{append_hex, hex};

verus! {

/// One inlined call.
#[derive(Clone, Copy, Debug, PartialEq, Eq, Structural)]
pub struct SymFrame {
    /// String index of the function's name.
    pub function: i64,
    /// String index of the source file, if known.
    pub file: Option<i64>,
    /// Source line, if known.
    pub line: Option<i64>,
}

/// One symbol.
#[derive(Debug)]
pub struct SymEntry {
    /// First address, relative to the module.
    pub rva: u64,
    /// Number of bytes.
    pub size: u64,
    /// String index of the name.
    pub symbol: i64,
    /// Inline chain from the outside in. Empty without inline info.
    pub frames: Vec<SymFrame>,
}

/// The symbols of one module.
#[derive(Debug)]
pub struct LibSyms {
    /// What the module's `debug_name` is compared with.
    pub debug_name: String,
    /// In order of address once loaded.
    pub symbol_table: Vec<SymEntry>,
}

/// A `.syms.json` file.
#[derive(Debug)]
pub struct SamplySyms {
    pub data: Vec<LibSyms>,
    pub string_table: Vec<String>,
}

/// The value of a [`SymEntry`].
#[verifier::ext_equal]
pub struct SymEntryView {
    pub rva: u64,
    pub size: u64,
    pub symbol: i64,
    pub frames: Seq<SymFrame>,
}

/// The value of a [`LibSyms`].
#[verifier::ext_equal]
pub struct LibSymsView {
    pub debug_name: Seq<char>,
    pub symbol_table: Seq<SymEntryView>,
}

/// The value of a [`SamplySyms`].
#[verifier::ext_equal]
pub struct SamplySymsView {
    pub data: Seq<LibSymsView>,
    pub string_table: Seq<Seq<char>>,
}

impl View for SymEntry {
    type V = SymEntryView;

    open spec fn view(&self) -> SymEntryView {
        SymEntryView { rva: self.rva, size: self.size, symbol: self.symbol, frames: self.frames@ }
    }
}

pub open spec fn symbol_views(s: Seq<SymEntry>) -> Seq<SymEntryView> {
    Seq::new(s.len(), |i: int| s[i]@)
}

impl View for LibSyms {
    type V = LibSymsView;

    open spec fn view(&self) -> LibSymsView {
        LibSymsView { debug_name: self.debug_name@, symbol_table: symbol_views(self.symbol_table@) }
    }
}

pub open spec fn lib_views(s: Seq<LibSyms>) -> Seq<LibSymsView> {
    Seq::new(s.len(), |i: int| s[i]@)
}

impl View for SamplySyms {
    type V = SamplySymsView;

    open spec fn view(&self) -> SamplySymsView {
        SamplySymsView { data: lib_views(self.data@), string_table: texts(self.string_table@) }
    }
}

/// Symbols in order of address, with one more behind those that are not higher.
pub open spec fn symbol_placed(s: Seq<SymEntryView>, e: SymEntryView) -> Seq<SymEntryView>
    decreases s.len(),
{
    if s.len() == 0 || s.last().rva <= e.rva {
        s.push(e)
    } else {
        symbol_placed(s.drop_last(), e).push(s.last())
    }
}

/// Symbols in order of address. Those of one address keep their order.
pub open spec fn by_address(s: Seq<SymEntryView>) -> Seq<SymEntryView>
    decreases s.len(),
{
    if s.len() == 0 {
        Seq::empty()
    } else {
        symbol_placed(by_address(s.drop_last()), s.last())
    }
}

/// Whether the symbols are in order of address.
pub open spec fn in_order(s: Seq<SymEntryView>) -> bool {
    forall|i: int, j: int| 0 <= i < j < s.len() ==> (#[trigger] s[i]).rva <= (#[trigger] s[j]).rva
}

proof fn lemma_placed_in_order(s: Seq<SymEntryView>, e: SymEntryView)
    requires
        in_order(s),
    ensures
        in_order(symbol_placed(s, e)),
        symbol_placed(s, e).len() == s.len() + 1,
        symbol_placed(s, e).last().rva == if s.len() == 0 || s.last().rva <= e.rva {
            e.rva
        } else {
            s.last().rva
        },
    decreases s.len(),
{
    if s.len() > 0 && s.last().rva > e.rva {
        let t = s.drop_last();
        lemma_placed_in_order(t, e);
        let r = symbol_placed(s, e);
        let u = symbol_placed(t, e);
        assert(u.last().rva <= s.last().rva) by {
            if t.len() > 0 {
                assert(s[t.len() - 1].rva <= s[s.len() - 1].rva);
            }
        }
        assert forall|i: int, j: int| 0 <= i < j < r.len() implies (#[trigger] r[i]).rva <= (#[trigger] r[j]).rva by {
            if j < u.len() {
                assert(u[i].rva <= u[j].rva);
            } else if i < u.len() - 1 {
                assert(u[i].rva <= u[u.len() - 1].rva);
            }
        }
    } else {
        let r = symbol_placed(s, e);
        assert forall|i: int, j: int| 0 <= i < j < r.len() implies (#[trigger] r[i]).rva <= (#[trigger] r[j]).rva by {
            if j == s.len() && i < s.len() - 1 {
                assert(s[i].rva <= s[s.len() - 1].rva);
            }
        }
    }
}

/// Sorting puts the symbols in order, and loses and adds none.
pub proof fn law_by_address(s: Seq<SymEntryView>)
    ensures
        in_order(by_address(s)),
        by_address(s).len() == s.len(),
        by_address(s).to_multiset() == s.to_multiset(),
    decreases s.len(),
{
    broadcast use vstd::seq_lib::group_to_multiset_ensures;

    if s.len() > 0 {
        law_by_address(s.drop_last());
        lemma_placed_in_order(by_address(s.drop_last()), s.last());
        lemma_placed_multiset(by_address(s.drop_last()), s.last());
        assert(s =~= s.drop_last().push(s.last()));
    }
}

proof fn lemma_placed_multiset(s: Seq<SymEntryView>, e: SymEntryView)
    ensures
        symbol_placed(s, e).to_multiset() == s.to_multiset().insert(e),
    decreases s.len(),
{
    broadcast use vstd::seq_lib::group_to_multiset_ensures;

    if s.len() > 0 && s.last().rva > e.rva {
        lemma_placed_multiset(s.drop_last(), e);
        assert(s =~= s.drop_last().push(s.last()));
        assert(symbol_placed(s, e).to_multiset() =~= s.to_multiset().insert(e));
    }
}

/// Symbols that are in order stay as they are.
pub proof fn law_sorted_unchanged(s: Seq<SymEntryView>)
    requires
        in_order(s),
    ensures
        by_address(s) == s,
    decreases s.len(),
{
    if s.len() > 0 {
        let t = s.drop_last();
        assert forall|i: int, j: int| 0 <= i < j < t.len() implies (#[trigger] t[i]).rva <= (#[trigger] t[j]).rva by {
            assert(s[i].rva <= s[j].rva);
        }
        law_sorted_unchanged(t);
        if t.len() > 0 {
            assert(s[t.len() - 1].rva <= s[s.len() - 1].rva);
        }
        assert(t.push(s.last()) =~= s);
    }
}

/// The last symbol that does not start behind an address.
pub open spec fn last_start(table: Seq<SymEntryView>, rva: u64) -> Option<int>
    decreases table.len(),
{
    if table.len() == 0 {
        None
    } else if table.last().rva <= rva {
        Some(table.len() - 1)
    } else {
        last_start(table.drop_last(), rva)
    }
}

/// The symbol whose range holds an address.
pub open spec fn enclosing(table: Seq<SymEntryView>, rva: u64) -> Option<int> {
    match last_start(table, rva) {
        Some(i) => if rva < table[i].rva + table[i].size {
            Some(i)
        } else {
            None
        },
        None => None,
    }
}

/// An inlined call with its names.
pub open spec fn inline_frame(strings: Seq<Seq<char>>, sym: SymEntryView, f: SymFrame, rva: u64) -> ResolvedFrameView {
    let own = text_at(strings, f.function);
    ResolvedFrameView {
        name: if own.len() == 0 {
            text_at(strings, sym.symbol)
        } else {
            own
        },
        file: match f.file {
            Some(i) => text_at(strings, i),
            None => Seq::empty(),
        },
        line: match f.line {
            Some(n) => n,
            None => 0,
        },
        mapping_index: 0,
        address: rva,
    }
}

/// The names at an address inside a symbol, leaf first.
pub open spec fn symbol_frames(strings: Seq<Seq<char>>, sym: SymEntryView, rva: u64) -> Seq<ResolvedFrameView> {
    let n = sym.frames.len();
    if n == 0 {
        seq![
            ResolvedFrameView {
                name: text_at(strings, sym.symbol),
                file: Seq::empty(),
                line: 0,
                mapping_index: 0,
                address: rva,
            },
        ]
    } else {
        Seq::new(n, |i: int| inline_frame(strings, sym, sym.frames[n - 1 - i], rva))
    }
}

/// The symbols of a module, the last ones where several have its name.
pub open spec fn lib_with(data: Seq<LibSymsView>, name: Seq<char>) -> Option<int>
    decreases data.len(),
{
    if data.len() == 0 {
        None
    } else if data.last().debug_name == name {
        Some(data.len() - 1)
    } else {
        lib_with(data.drop_last(), name)
    }
}

/// The names at an address of a module. `None` where no symbol holds it.
pub open spec fn looked_up(syms: SamplySymsView, name: Seq<char>, rva: u64) -> Option<Seq<ResolvedFrameView>> {
    match lib_with(syms.data, name) {
        None => None,
        Some(k) => {
            let table = syms.data[k].symbol_table;
            match enclosing(table, rva) {
                None => None,
                Some(i) => Some(symbol_frames(syms.string_table, table[i], rva)),
            }
        },
    }
}

/// The module that owns a frame, the first one where the tables do not say.
pub open spec fn owner(t: Thread, frame_idx: i64) -> usize {
    let func = match entry(t.frame_table.func@, frame_idx) {
        Some(f) => f,
        None => 0,
    };
    match entry(t.func_table.resource@, func) {
        Some(r) => match t.resource_table {
            Some(table) => match entry(table.lib@, r) {
                Some(v) => if v >= 0 {
                    v as usize
                } else {
                    0
                },
                None => 0,
            },
            None => 0,
        },
        None => 0,
    }
}

/// The frames with their module filled in.
pub open spec fn owned(fs: Seq<ResolvedFrameView>, lib: usize) -> Seq<ResolvedFrameView> {
    Seq::new(fs.len(), |i: int| ResolvedFrameView { mapping_index: lib, ..fs[i] })
}

/// A frame that no symbol holds: module and address.
pub open spec fn unknown_frame(name: Seq<char>, addr: u64, lib: usize) -> ResolvedFrameView {
    ResolvedFrameView {
        name: name + "+0x"@ + hex(addr as nat),
        file: Seq::empty(),
        line: 0,
        mapping_index: lib,
        address: addr,
    }
}

/// The names of a frame.
pub open spec fn samply_names(syms: SamplySymsView, p: FirefoxProfile, t: Thread, frame_idx: i64) -> Seq<
    ResolvedFrameView,
> {
    let addr = frame_address(t, frame_idx);
    let lib = owner(t, frame_idx);
    if lib < p.libs@.len() {
        let l = p.libs@[lib as int];
        match looked_up(syms, l.debug_name@, addr) {
            Some(fs) => owned(fs, lib),
            None => seq![
                unknown_frame(
                    if l.name@.len() == 0 {
                        "??"@
                    } else {
                        l.name@
                    },
                    addr,
                    lib,
                ),
            ],
        }
    } else {
        seq![unknown_frame("??"@, addr, lib)]
    }
}

fn place_symbol(table: &mut Vec<SymEntry>, e: SymEntry)
    ensures
        symbol_views(final(table)@) == symbol_placed(symbol_views(old(table)@), e@),
{
    let ghost v = symbol_views(table@);
    let ghost ev = e@;
    let mut n: usize = table.len();
    assert(v.take(n as int) =~= v);
    assert(symbol_placed(v.take(n as int), ev) + v.skip(n as int) =~= symbol_placed(v, ev));
    while n > 0 && table[n - 1].rva > e.rva
        invariant
            table@ == old(table)@,
            v == symbol_views(table@),
            ev == e@,
            n <= table@.len(),
            symbol_placed(v.take(n as int), ev) + v.skip(n as int) == symbol_placed(v, ev),
        decreases n,
    {
        proof {
            let last = v[n - 1];
            assert(v.take(n as int).last() == last);
            assert(v.take(n as int).drop_last() =~= v.take(n - 1));
            assert(symbol_placed(v.take(n - 1), ev).push(last) + v.skip(n as int) =~= symbol_placed(v.take(n - 1), ev)
                + v.skip(n - 1));
        }
        n -= 1;
    }
    proof {
        if n > 0 {
            assert(v.take(n as int).last() == v[n - 1]);
        }
        assert(symbol_placed(v.take(n as int), ev) == v.take(n as int).push(ev));
    }
    table.insert(n, e);
    assert(symbol_views(table@) =~= v.take(n as int).push(ev) + v.skip(n as int));
}

/// The symbols in order of address.
fn sort_symbols(table: Vec<SymEntry>) -> (r: Vec<SymEntry>)
    ensures
        symbol_views(r@) == by_address(symbol_views(table@)),
{
    let ghost v = symbol_views(table@);
    let mut rest = table;
    let mut turned: Vec<SymEntry> = Vec::new();
    // Turned round, so that the symbols come off the end in their order.
    while rest.len() > 0
        invariant
            rest@.len() + turned@.len() == v.len(),
            symbol_views(rest@) == v.take(rest@.len() as int),
            forall|i: int| 0 <= i < turned@.len() ==> (#[trigger] turned@[i])@ == v[v.len() - 1 - i],
        decreases rest@.len(),
    {
        let ghost before = rest@;
        if let Some(e) = rest.pop() {
            proof {
                assert(symbol_views(before)[before.len() - 1] == e@);
                assert forall|i: int| 0 <= i < rest@.len() implies symbol_views(rest@)[i] == v[i] by {
                    assert(symbol_views(before)[i] == v[i]);
                }
                assert(symbol_views(rest@) =~= v.take(rest@.len() as int));
            }
            turned.push(e);
        }
    }
    let mut r: Vec<SymEntry> = Vec::new();
    let ghost mut done: int = 0;
    assert(symbol_views(r@) =~= by_address(v.take(0)));
    while turned.len() > 0
        invariant
            0 <= done <= v.len(),
            turned@.len() == v.len() - done,
            forall|i: int| 0 <= i < turned@.len() ==> (#[trigger] turned@[i])@ == v[v.len() - 1 - i],
            symbol_views(r@) == by_address(v.take(done)),
        decreases turned@.len(),
    {
        let ghost before = turned@;
        if let Some(e) = turned.pop() {
            proof {
                assert(before[before.len() - 1]@ == v[done]);
                assert(v.take(done + 1).drop_last() =~= v.take(done));
            }
            place_symbol(&mut r, e);
            proof {
                done = done + 1;
            }
        }
    }
    assert(v.take(done) =~= v);
    r
}

/// The tables with the symbols of each module in order of address.
pub open spec fn sorted_libs(data: Seq<LibSymsView>) -> Seq<LibSymsView> {
    Seq::new(
        data.len(),
        |i: int| LibSymsView { symbol_table: by_address(data[i].symbol_table), ..data[i] },
    )
}

/// Sorts the symbols of each module.
pub(crate) fn sort_libs(data: Vec<LibSyms>) -> (r: Vec<LibSyms>)
    ensures
        lib_views(r@) == sorted_libs(lib_views(data@)),
{
    let ghost v = lib_views(data@);
    let mut rest = data;
    let mut turned: Vec<LibSyms> = Vec::new();
    while rest.len() > 0
        invariant
            rest@.len() + turned@.len() == v.len(),
            lib_views(rest@) == v.take(rest@.len() as int),
            forall|i: int| 0 <= i < turned@.len() ==> (#[trigger] turned@[i])@ == v[v.len() - 1 - i],
        decreases rest@.len(),
    {
        let ghost before = rest@;
        if let Some(e) = rest.pop() {
            proof {
                assert(lib_views(before)[before.len() - 1] == e@);
                assert forall|i: int| 0 <= i < rest@.len() implies lib_views(rest@)[i] == v[i] by {
                    assert(lib_views(before)[i] == v[i]);
                }
                assert(lib_views(rest@) =~= v.take(rest@.len() as int));
            }
            turned.push(e);
        }
    }
    let mut r: Vec<LibSyms> = Vec::new();
    while turned.len() > 0
        invariant
            r@.len() + turned@.len() == v.len(),
            forall|i: int| 0 <= i < turned@.len() ==> (#[trigger] turned@[i])@ == v[v.len() - 1 - i],
            forall|i: int| 0 <= i < r@.len() ==> (#[trigger] r@[i])@ == sorted_libs(v)[i],
        decreases turned@.len(),
    {
        let ghost before = turned@;
        let ghost done = r@;
        if let Some(e) = turned.pop() {
            assert(before[before.len() - 1]@ == v[done.len() as int]);
            let one = LibSyms { debug_name: e.debug_name, symbol_table: sort_symbols(e.symbol_table) };
            r.push(one);
            assert forall|i: int| 0 <= i < r@.len() implies (#[trigger] r@[i])@ == sorted_libs(v)[i] by {
                if i < done.len() {
                    assert(r@[i] == done[i]);
                }
            }
        }
    }
    assert(lib_views(r@) =~= sorted_libs(v));
    r
}

/// Whether `m` gives the position of each module name.
spec fn indexes_libs(m: Map<Seq<char>, usize>, data: Seq<LibSymsView>) -> bool {
    forall|name: Seq<char>|
        #![trigger m.contains_key(name)]
        m.contains_key(name) == (lib_with(data, name) is Some) && (m.contains_key(name) ==> lib_with(data, name)
            == Some(m[name] as int))
}

proof fn lemma_lib_with(data: Seq<LibSymsView>, name: Seq<char>)
    ensures
        lib_with(data, name) matches Some(i) ==> 0 <= i < data.len(),
    decreases data.len(),
{
    if data.len() > 0 {
        lemma_lib_with(data.drop_last(), name);
    }
}

/// Gives frames the names of a `.syms.json` file.
pub struct SamplySymsResolver {
    libs: Vec<LibSyms>,
    index: StringHashMap<usize>,
    string_table: Vec<String>,
}

impl SamplySymsResolver {
    /// The symbols it was made of.
    pub closed spec fn syms(&self) -> SamplySymsView {
        SamplySymsView { data: lib_views(self.libs@), string_table: texts(self.string_table@) }
    }

    #[verifier::type_invariant]
    spec fn wf(&self) -> bool {
        &&& indexes_libs(self.index@, lib_views(self.libs@))
        &&& forall|i: int| 0 <= i < self.libs@.len() ==> in_order(symbol_views((#[trigger] self.libs@[i]).symbol_table@))
    }
}

impl SamplySyms {
    /// The resolver that takes names from these symbols.
    pub fn into_resolver(self) -> (r: SamplySymsResolver)
        ensures
            r.syms() == (SamplySymsView {
                data: sorted_libs(self@.data),
                string_table: self@.string_table,
            }),
    {
        let libs = sort_libs(self.data);
        let ghost v = lib_views(libs@);
        let mut index: StringHashMap<usize> = StringHashMap::new();
        for i in 0..libs.len()
            invariant
                v == lib_views(libs@),
                indexes_libs(index@, v.take(i as int)),
        {
            let ghost before = index@;
            index.insert(libs[i].debug_name.clone(), i);
            proof {
                assert(v.take(i + 1).drop_last() =~= v.take(i as int));
                assert forall|name: Seq<char>|
                    #![trigger index@.contains_key(name)]
                    index@.contains_key(name) == (lib_with(v.take(i + 1), name) is Some) && (index@.contains_key(name)
                        ==> lib_with(v.take(i + 1), name) == Some(index@[name] as int)) by {
                    assert(before.contains_key(name) == (lib_with(v.take(i as int), name) is Some));
                }
            }
        }
        proof {
            assert(v.take(v.len() as int) =~= v);
            assert forall|i: int| 0 <= i < libs@.len() implies in_order(
                symbol_views((#[trigger] libs@[i]).symbol_table@),
            ) by {
                assert(v[i] == libs@[i]@);
                law_by_address(lib_views(self.data@)[i].symbol_table);
            }
        }
        SamplySymsResolver { libs, index, string_table: self.string_table }
    }
}

/// The position of the last symbol that does not start behind an address.
fn find_last_start(table: &Vec<SymEntry>, rva: u64) -> (r: Option<usize>)
    requires
        in_order(symbol_views(table@)),
    ensures
        match r {
            Some(i) => last_start(symbol_views(table@), rva) == Some(i as int) && i < table@.len(),
            None => last_start(symbol_views(table@), rva) is None,
        },
{
    let ghost v = symbol_views(table@);
    let mut low: usize = 0;
    let mut high: usize = table.len();
    while low < high
        invariant
            v == symbol_views(table@),
            in_order(v),
            low <= high <= table@.len(),
            forall|i: int| 0 <= i < low ==> (#[trigger] v[i]).rva <= rva,
            forall|i: int| high <= i < v.len() ==> (#[trigger] v[i]).rva > rva,
        decreases high - low,
    {
        let mid: usize = low + (high - low) / 2;
        if table[mid].rva <= rva {
            assert forall|i: int| 0 <= i < mid + 1 implies (#[trigger] v[i]).rva <= rva by {
                if i < mid {
                    assert(v[i].rva <= v[mid as int].rva);
                }
            }
            low = mid + 1;
        } else {
            assert forall|i: int| mid <= i < v.len() implies (#[trigger] v[i]).rva > rva by {
                if i > mid {
                    assert(v[mid as int].rva <= v[i].rva);
                }
            }
            high = mid;
        }
    }
    proof {
        lemma_last_start(v, rva, low as int);
    }
    if low == 0 {
        None
    } else {
        Some(low - 1)
    }
}

proof fn lemma_last_start(v: Seq<SymEntryView>, rva: u64, n: int)
    requires
        0 <= n <= v.len(),
        n > 0 ==> v[n - 1].rva <= rva,
        forall|i: int| n <= i < v.len() ==> (#[trigger] v[i]).rva > rva,
    ensures
        last_start(v, rva) == if n == 0 {
            None
        } else {
            Some(n - 1)
        },
    decreases v.len(),
{
    if v.len() > n {
        assert(v[v.len() - 1].rva > rva);
        let t = v.drop_last();
        assert forall|i: int| n <= i < t.len() implies (#[trigger] t[i]).rva > rva by {
            assert(v[i].rva > rva);
        }
        lemma_last_start(t, rva, n);
    }
}

impl SamplySymsResolver {
    fn st(&self, idx: i64) -> (r: &str)
        ensures
            r@ == text_at(self.syms().string_table, idx),
    {
        proof {
            reveal_strlit("");
            assert(""@ =~= Seq::<char>::empty());
        }
        match position(idx, self.string_table.len()) {
            Some(i) => self.string_table[i].as_str(),
            None => "",
        }
    }

    /// The names at an address of a module, leaf first.
    pub fn lookup(&self, debug_name: &str, rva: u64) -> (r: Option<Vec<ResolvedFrame>>)
        ensures
            match r {
                Some(fs) => looked_up(self.syms(), debug_name@, rva) == Some(resolved_views(fs@)),
                None => looked_up(self.syms(), debug_name@, rva) is None,
            },
    {
        proof {
            use_type_invariant(self);
            lemma_lib_with(lib_views(self.libs@), debug_name@);
            assert(self.index@.contains_key(debug_name@) == (lib_with(lib_views(self.libs@), debug_name@) is Some));
        }
        let k: usize = match self.index.get(debug_name) {
            Some(k) => *k,
            None => {
                return None;
            },
        };
        let table = &self.libs[k].symbol_table;
        assert(in_order(symbol_views(self.libs@[k as int].symbol_table@)));
        let i: usize = match find_last_start(table, rva) {
            Some(i) => i,
            None => {
                return None;
            },
        };
        let sym = &table[i];
        if rva as u128 >= sym.rva as u128 + sym.size as u128 {
            return None;
        }
        let ghost strings = self.syms().string_table;
        let n: usize = sym.frames.len();
        let mut out: Vec<ResolvedFrame> = Vec::new();
        if n == 0 {
            let file = String::new();
            assert(file@ =~= Seq::<char>::empty());
            out.push(
                ResolvedFrame {
                    name: self.st(sym.symbol).to_owned(),
                    file,
                    line: 0,
                    mapping_index: 0,
                    address: rva,
                },
            );
            assert(resolved_views(out@) =~= symbol_frames(strings, sym@, rva));
            return Some(out);
        }
        let ghost want = symbol_frames(strings, sym@, rva);
        for j in 0..n
            invariant
                n == sym.frames@.len(),
                n > 0,
                strings == self.syms().string_table,
                want == symbol_frames(strings, sym@, rva),
                out@.len() == j,
                forall|x: int| 0 <= x < j ==> (#[trigger] out@[x])@ == want[x],
        {
            let f = sym.frames[n - 1 - j];
            let own = self.st(f.function);
            let name = if own.is_empty() {
                self.st(sym.symbol).to_owned()
            } else {
                own.to_owned()
            };
            let file = match f.file {
                Some(x) => self.st(x).to_owned(),
                None => String::new(),
            };
            let line: i64 = match f.line {
                Some(x) => x,
                None => 0,
            };
            assert(f.file is None ==> file@ =~= Seq::<char>::empty());
            out.push(ResolvedFrame { name, file, line, mapping_index: 0, address: rva });
        }
        assert(resolved_views(out@) =~= want);
        Some(out)
    }
}

fn owner_of(t: &Thread, frame_idx: i64) -> (r: usize)
    ensures
        r == owner(*t, frame_idx),
{
    let func: i64 = match position(frame_idx, t.frame_table.func.len()) {
        Some(i) => t.frame_table.func[i],
        None => 0,
    };
    let r: i64 = match position(func, t.func_table.resource.len()) {
        Some(i) => t.func_table.resource[i],
        None => {
            return 0;
        },
    };
    match &t.resource_table {
        Some(table) => match position(r, table.lib.len()) {
            Some(i) => {
                let v: i64 = table.lib[i];
                if v >= 0 {
                    v as usize
                } else {
                    0
                }
            },
            None => 0,
        },
        None => 0,
    }
}

/// Fills in the module of the frames.
fn own_frames(fs: Vec<ResolvedFrame>, lib: usize) -> (r: Vec<ResolvedFrame>)
    ensures
        resolved_views(r@) == owned(resolved_views(fs@), lib),
{
    let ghost v = resolved_views(fs@);
    let n: usize = fs.len();
    let mut r = fs;
    for i in 0..n
        invariant
            n == v.len(),
            r@.len() == v.len(),
            forall|k: int| 0 <= k < i ==> (#[trigger] r@[k])@ == owned(v, lib)[k],
            forall|k: int| i <= k < r@.len() ==> (#[trigger] r@[k])@ == v[k],
    {
        let ghost before = r@;
        r[i].mapping_index = lib;
        assert forall|k: int| 0 <= k < i + 1 implies (#[trigger] r@[k])@ == owned(v, lib)[k] by {
            if k < i {
                assert(r@[k] == before[k]);
            } else {
                assert(before[k]@ == v[k]);
            }
        }
        assert forall|k: int| i + 1 <= k < r@.len() implies (#[trigger] r@[k])@ == v[k] by {
            assert(r@[k] == before[k]);
        }
    }
    assert(resolved_views(r@) =~= owned(v, lib));
    r
}

impl FrameResolver for SamplySymsResolver {
    open spec fn can(&self, profile: FirefoxProfile, thread: Thread, frame_idx: i64) -> bool {
        true
    }

    open spec fn names(&self, profile: FirefoxProfile, thread: Thread, frame_idx: i64) -> Seq<ResolvedFrameView> {
        samply_names(self.syms(), profile, thread, frame_idx)
    }

    fn can_resolve(&self, profile: &FirefoxProfile, thread: &Thread, frame_idx: i64) -> (r: bool) {
        true
    }

    fn resolve(&self, profile: &FirefoxProfile, thread: &Thread, frame_idx: i64) -> (r: Vec<ResolvedFrame>) {
        let addr: u64 = address_of(thread, frame_idx);
        let lib: usize = owner_of(thread, frame_idx);
        let mut name = "??".to_owned();
        if lib < profile.libs.len() {
            let l = &profile.libs[lib];
            if let Some(fs) = self.lookup(l.debug_name.as_str(), addr) {
                return own_frames(fs, lib);
            }
            if !l.name.as_str().is_empty() {
                name = l.name.clone();
            }
        }
        name.append("+0x");
        append_hex(&mut name, addr);
        let file = String::new();
        assert(file@ =~= Seq::<char>::empty());
        let mut r: Vec<ResolvedFrame> = Vec::new();
        r.push(ResolvedFrame { name, file, line: 0, mapping_index: lib, address: addr });
        assert(resolved_views(r@) =~= samply_names(self.syms(), *profile, *thread, frame_idx));
        r
    }
}

/// A symbol that holds an address is found: the last one to start at or before it.
pub proof fn law_enclosing_symbol(table: Seq<SymEntryView>, rva: u64, i: int)
    requires
        in_order(table),
        0 <= i < table.len(),
        table[i].rva <= rva < table[i].rva + table[i].size,
        i + 1 < table.len() ==> rva < table[i + 1].rva,
    ensures
        enclosing(table, rva) == Some(i),
{
    assert forall|k: int| i + 1 <= k < table.len() implies (#[trigger] table[k]).rva > rva by {
        if k > i + 1 {
            assert(table[i + 1].rva <= table[k].rva);
        }
    }
    lemma_last_start(table, rva, i + 1);
}

/// Whether a symbol of a table in any order is the last one to start at or before an
/// address: the highest, and of those of one address the last in the table.
pub open spec fn is_last_start(s: Seq<SymEntryView>, rva: u64, i: int) -> bool {
    &&& 0 <= i < s.len()
    &&& s[i].rva <= rva
    &&& forall|k: int|
        0 <= k < s.len() && (#[trigger] s[k]).rva <= rva ==> s[k].rva < s[i].rva || (s[k].rva == s[i].rva && k <= i)
}

/// The symbol that is the last one to start at or before an address.
spec fn start_of(table: Seq<SymEntryView>, rva: u64) -> Option<SymEntryView> {
    match last_start(table, rva) {
        Some(i) => Some(table[i]),
        None => None,
    }
}

/// The same with one more symbol.
spec fn later_start(found: Option<SymEntryView>, e: SymEntryView, rva: u64) -> Option<SymEntryView> {
    if e.rva <= rva && (found matches Some(f) ==> f.rva <= e.rva) {
        Some(e)
    } else {
        found
    }
}

proof fn lemma_start_within(t: Seq<SymEntryView>, rva: u64)
    ensures
        last_start(t, rva) matches Some(i) ==> 0 <= i < t.len() && t[i].rva <= rva,
    decreases t.len(),
{
    if t.len() > 0 {
        lemma_start_within(t.drop_last(), rva);
    }
}

proof fn lemma_start_placed(t: Seq<SymEntryView>, e: SymEntryView, rva: u64)
    requires
        in_order(t),
    ensures
        start_of(symbol_placed(t, e), rva) == later_start(start_of(t, rva), e, rva),
    decreases t.len(),
{
    let r = symbol_placed(t, e);
    lemma_start_within(t, rva);
    if t.len() == 0 || t.last().rva <= e.rva {
        assert(r.drop_last() =~= t);
        if let Some(i) = last_start(t, rva) {
            if i < t.len() - 1 {
                assert(t[i].rva <= t[t.len() - 1].rva);
            }
        }
    } else {
        let front = t.drop_last();
        assert forall|i: int, j: int| 0 <= i < j < front.len() implies (#[trigger] front[i]).rva <= (
        #[trigger] front[j]).rva by {
            assert(t[i].rva <= t[j].rva);
        }
        assert(r.drop_last() =~= symbol_placed(front, e));
        if t.last().rva > rva {
            lemma_start_placed(front, e, rva);
            lemma_start_within(front, rva);
            lemma_start_within(symbol_placed(front, e), rva);
            assert(start_of(t, rva) == start_of(front, rva));
            assert(start_of(r, rva) == start_of(symbol_placed(front, e), rva));
        }
    }
}

proof fn lemma_start_any_order(s: Seq<SymEntryView>, rva: u64)
    ensures
        forall|i: int|
            #[trigger] is_last_start(s, rva, i) ==> start_of(by_address(s), rva) == Some(s[i]),
        start_of(by_address(s), rva) is Some ==> exists|i: int| is_last_start(s, rva, i),
        start_of(by_address(s), rva) is None ==> forall|k: int| 0 <= k < s.len() ==> (#[trigger] s[k]).rva > rva,
    decreases s.len(),
{
    if s.len() > 0 {
        let front = s.drop_last();
        let e = s.last();
        let n = s.len() - 1;
        lemma_start_any_order(front, rva);
        law_by_address(front);
        lemma_start_placed(by_address(front), e, rva);
        let found = start_of(by_address(front), rva);
        let now = start_of(by_address(s), rva);
        assert(now == later_start(found, e, rva));
        if found is Some {
            let i = choose|i: int| is_last_start(front, rva, i);
            assert(found == Some(front[i]));
            assert(s[i] == front[i]);
            if now == Some(e) && e.rva <= rva && front[i].rva <= e.rva {
                assert forall|k: int| 0 <= k < s.len() && (#[trigger] s[k]).rva <= rva implies s[k].rva < s[n].rva || (
                s[k].rva == s[n].rva && k <= n) by {
                    if k < n {
                        assert(front[k] == s[k]);
                    }
                }
                assert(is_last_start(s, rva, n));
            } else {
                assert forall|k: int| 0 <= k < s.len() && (#[trigger] s[k]).rva <= rva implies s[k].rva < s[i].rva || (
                s[k].rva == s[i].rva && k <= i) by {
                    if k < n {
                        assert(front[k] == s[k]);
                    }
                }
                assert(is_last_start(s, rva, i));
            }
        } else {
            assert forall|k: int| 0 <= k < n implies (#[trigger] s[k]).rva > rva by {
                assert(front[k].rva > rva);
            }
            if e.rva <= rva {
                assert(is_last_start(s, rva, n));
            }
        }
        assert forall|i: int| #[trigger] is_last_start(s, rva, i) implies now == Some(s[i]) by {
            if i < n {
                assert forall|k: int| 0 <= k < front.len() && (#[trigger] front[k]).rva <= rva implies front[k].rva
                    < front[i].rva || (front[k].rva == front[i].rva && k <= i) by {
                    assert(s[k] == front[k]);
                }
                assert(is_last_start(front, rva, i));
                assert(s[n] == e);
            } else if found is Some {
                let j = choose|j: int| is_last_start(front, rva, j);
                assert(found == Some(front[j]));
                assert(s[j] == front[j]);
            }
        }
    }
}

/// A lookup succeeds exactly where the last symbol to start at or before the address holds
/// it, and finds that symbol, whatever the order of the table.
pub proof fn law_lookup(s: Seq<SymEntryView>, rva: u64)
    ensures
        enclosing(by_address(s), rva) is Some <==> exists|i: int|
            is_last_start(s, rva, i) && rva < s[i].rva + s[i].size,
        forall|i: int|
            #[trigger] is_last_start(s, rva, i) && rva < s[i].rva + s[i].size ==> (enclosing(
                by_address(s),
                rva,
            ) matches Some(j) && by_address(s)[j] == s[i]),
{
    lemma_start_any_order(s, rva);
    if enclosing(by_address(s), rva) is Some {
        let i = choose|i: int| is_last_start(s, rva, i);
        assert(start_of(by_address(s), rva) == Some(s[i]));
        assert(is_last_start(s, rva, i) && rva < s[i].rva + s[i].size);
    }
}

} // verus!

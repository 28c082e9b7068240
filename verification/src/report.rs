//! What is shown of summaries: the leading functions of one, and the changes between two.
use vstd::prelude::*;
use vstd::hash_map::StringHashMap;
use crate::axis::CpuAxis;
use crate::num::is_i64;
use crate::pool::TextIndex;
use crate::proto::texts;
use crate::rank::{as_ints, law_ranked, places, rank, ranked};
use crate::summary::{enter_name, stats_views, FuncStats, FuncStatsView, Rollup, RollupView, Summary};
use crate::tally::first_seen;

verus! {

/// Whether the values of two axes are shown alike, so that they can be compared.
pub fn same_unit(a: &CpuAxis, b: &CpuAxis) -> (r: bool)
    ensures
        r == (a.unit@ == b.unit@ && a.div == b.div),
{
    a.unit.eq(b.unit) && a.div == b.div
}

/// Which functions a listing is about.
#[derive(Clone, Copy, Debug, PartialEq, Eq, Structural)]
pub enum Group {
    All,
    /// Those that are not memory management.
    Users,
    /// Memory management.
    Primitives,
}

/// Which value a listing is about.
#[derive(Clone, Copy, Debug, PartialEq, Eq, Structural)]
pub enum Column {
    /// The function's own value.
    Own,
    /// The value spent on memory management below it.
    Memory,
}

/// Whether a function is in a group.
pub open spec fn in_group(s: FuncStatsView, g: Group) -> bool {
    match g {
        Group::All => true,
        Group::Users => !s.is_mem,
        Group::Primitives => s.is_mem,
    }
}

/// The value of a function in a column.
pub open spec fn column_value(s: FuncStatsView, c: Column) -> i64 {
    match c {
        Column::Own => s.self_v,
        Column::Memory => s.mem_cum,
    }
}

/// The functions of a group.
pub open spec fn members(s: Seq<FuncStatsView>, g: Group) -> Seq<int>
    decreases s.len(),
{
    if s.len() == 0 {
        Seq::empty()
    } else if in_group(s.last(), g) {
        members(s.drop_last(), g).push(s.len() - 1)
    } else {
        members(s.drop_last(), g)
    }
}

/// How many values are shown: at most `n`, and none from the first zero on.
pub open spec fn shown(values: Seq<i64>, n: nat) -> nat
    decreases n,
{
    if n == 0 || values.len() == 0 || values[0] == 0 {
        0
    } else {
        1 + shown(values.drop_first(), (n - 1) as nat)
    }
}

/// The functions of a group from the largest value to the smallest.
pub open spec fn listed(s: Seq<FuncStatsView>, g: Group, c: Column) -> Seq<int> {
    let m = members(s, g);
    let order = ranked(Seq::new(m.len(), |i: int| -(column_value(s[m[i]], c) as int)));
    Seq::new(order.len(), |i: int| m[order[i]])
}

/// The leading functions of a group: at most `n`, the largest value first, and none from
/// the first zero on.
pub open spec fn top(s: Seq<FuncStatsView>, g: Group, c: Column, n: nat) -> Seq<int> {
    let all = listed(s, g, c);
    all.take(shown(Seq::new(all.len(), |i: int| column_value(s[all[i]], c)), n) as int)
}

proof fn lemma_members(s: Seq<FuncStatsView>, g: Group)
    ensures
        forall|i: int|
            0 <= i < members(s, g).len() ==> 0 <= #[trigger] members(s, g)[i] < s.len() && in_group(
                s[members(s, g)[i]],
                g,
            ),
    decreases s.len(),
{
    if s.len() > 0 {
        lemma_members(s.drop_last(), g);
        let front = members(s.drop_last(), g);
        let all = members(s, g);
        assert forall|i: int| 0 <= i < all.len() implies 0 <= #[trigger] all[i] < s.len() && in_group(s[all[i]], g) by {
            if i < front.len() {
                assert(all[i] == front[i]);
                assert(s.drop_last()[front[i]] == s[front[i]]);
            }
        }
    }
}

proof fn lemma_shown(values: Seq<i64>, n: nat)
    ensures
        shown(values, n) <= n,
        shown(values, n) <= values.len(),
        forall|i: int| 0 <= i < shown(values, n) ==> #[trigger] values[i] != 0,
        shown(values, n) == n || shown(values, n) == values.len() || values[shown(values, n) as int] == 0,
    decreases n,
{
    if !(n == 0 || values.len() == 0 || values[0] == 0) {
        let rest = values.drop_first();
        lemma_shown(rest, (n - 1) as nat);
        assert forall|i: int| 0 <= i < shown(values, n) implies #[trigger] values[i] != 0 by {
            if i > 0 {
                assert(rest[i - 1] == values[i]);
            }
        }
    }
}

/// A listing names functions of its group, with values other than zero, from the largest
/// to the smallest, and no more than it was asked for.
pub proof fn law_top(s: Seq<FuncStatsView>, g: Group, c: Column, n: nat)
    ensures
        ({
            let t = top(s, g, c, n);
            &&& t.len() <= n
            &&& forall|i: int|
                0 <= i < t.len() ==> 0 <= #[trigger] t[i] < s.len() && in_group(s[t[i]], g) && column_value(s[t[i]], c)
                    != 0
            &&& forall|i: int, j: int|
                0 <= i < j < t.len() ==> column_value(s[#[trigger] t[i]], c) >= column_value(s[#[trigger] t[j]], c)
        }),
{
    let m = members(s, g);
    let keys = Seq::new(m.len(), |i: int| -(column_value(s[m[i]], c) as int));
    let order = ranked(keys);
    let all = listed(s, g, c);
    let values = Seq::new(all.len(), |i: int| column_value(s[all[i]], c));
    let t = top(s, g, c, n);
    lemma_members(s, g);
    law_ranked(keys);
    lemma_shown(values, n);
    assert forall|i: int| 0 <= i < t.len() implies 0 <= #[trigger] t[i] < s.len() && in_group(s[t[i]], g)
        && column_value(s[t[i]], c) != 0 by {
        assert(t[i] == all[i] && all[i] == m[order[i]]);
        assert(values[i] != 0);
    }
    assert forall|i: int, j: int| 0 <= i < j < t.len() implies column_value(s[#[trigger] t[i]], c) >= column_value(
        s[#[trigger] t[j]],
        c,
    ) by {
        assert(crate::rank::ahead(keys, order[i], order[j]));
    }
}

fn value_in(s: &FuncStats, c: Column) -> (r: i64)
    ensures
        r == column_value(s@, c),
{
    match c {
        Column::Own => s.self_v,
        Column::Memory => s.mem_cum,
    }
}

fn is_in(s: &FuncStats, g: Group) -> (r: bool)
    ensures
        r == in_group(s@, g),
{
    match g {
        Group::All => true,
        Group::Users => !s.is_mem,
        Group::Primitives => s.is_mem,
    }
}

fn members_of(stats: &Vec<FuncStats>, g: Group) -> (r: Vec<usize>)
    ensures
        places(r@) == members(stats_views(stats@), g),
        forall|i: int| 0 <= i < r@.len() ==> (#[trigger] r@[i]) < stats@.len(),
{
    let ghost s = stats_views(stats@);
    let mut r: Vec<usize> = Vec::new();
    assert(places(r@) =~= members(s.take(0), g));
    for i in 0..stats.len()
        invariant
            s == stats_views(stats@),
            places(r@) == members(s.take(i as int), g),
            forall|k: int| 0 <= k < r@.len() ==> (#[trigger] r@[k]) < i,
    {
        let ghost before = r@;
        proof {
            assert(s.take(i + 1).drop_last() =~= s.take(i as int));
            assert(s.take(i + 1).last() == stats@[i as int]@);
        }
        if is_in(&stats[i], g) {
            r.push(i);
            assert(places(r@) =~= places(before).push(i as int));
        }
    }
    assert(s.take(s.len() as int) =~= s);
    r
}

/// The leading functions of a group.
pub fn top_functions(stats: &Vec<FuncStats>, g: Group, c: Column, n: usize) -> (r: Vec<usize>)
    ensures
        places(r@) == top(stats_views(stats@), g, c, n as nat),
        forall|i: int| 0 <= i < r@.len() ==> (#[trigger] r@[i]) < stats@.len(),
{
    let ghost s = stats_views(stats@);
    let m = members_of(stats, g);
    let mut keys: Vec<i128> = Vec::new();
    for i in 0..m.len()
        invariant
            s == stats_views(stats@),
            forall|k: int| 0 <= k < m@.len() ==> (#[trigger] m@[k]) < stats@.len(),
            keys@.len() == i,
            forall|k: int| 0 <= k < i ==> (#[trigger] keys@[k]) == -(column_value(s[m@[k] as int], c) as int),
    {
        let v: i64 = value_in(&stats[m[i]], c);
        keys.push(-(v as i128));
    }
    let order = rank(&keys);
    let ghost mm = members(s, g);
    let ghost all = listed(s, g, c);
    let ghost values = Seq::new(all.len(), |i: int| column_value(s[all[i]], c));
    proof {
        let want = Seq::new(mm.len(), |i: int| -(column_value(s[mm[i]], c) as int));
        assert forall|i: int| 0 <= i < mm.len() implies as_ints(keys@)[i] == want[i] by {
            assert(places(m@)[i] == mm[i]);
        }
        assert(as_ints(keys@) =~= want);
        assert(places(order@) == ranked(want));
        assert(all.len() == order@.len());
        assert forall|i: int| 0 <= i < all.len() implies #[trigger] all[i] == m@[order@[i] as int] by {
            assert(places(order@)[i] == order@[i]);
            assert(places(m@)[order@[i] as int] == mm[order@[i] as int]);
        }
        assert(values.skip(0) =~= values);
    }
    let mut r: Vec<usize> = Vec::new();
    let mut k: usize = 0;
    while k < n && k < order.len() && value_in(&stats[m[order[k]]], c) != 0
        invariant
            s == stats_views(stats@),
            k <= n,
            k <= order@.len(),
            all.len() == order@.len(),
            m@.len() == order@.len(),
            values == Seq::new(all.len(), |i: int| column_value(s[all[i]], c)),
            forall|k: int| 0 <= k < m@.len() ==> (#[trigger] m@[k]) < stats@.len(),
            forall|a: int| 0 <= a < order@.len() ==> (#[trigger] order@[a]) < m@.len(),
            forall|i: int| 0 <= i < all.len() ==> #[trigger] all[i] == m@[order@[i] as int],
            places(r@) == all.take(k as int),
            forall|i: int| 0 <= i < r@.len() ==> (#[trigger] r@[i]) < stats@.len(),
            shown(values, n as nat) == k + shown(values.skip(k as int), (n - k) as nat),
        decreases n - k,
    {
        let ghost before = r@;
        r.push(m[order[k]]);
        proof {
            assert(all[k as int] == m@[order@[k as int] as int]);
            assert(places(r@) =~= places(before).push(all[k as int]));
            assert(all.take(k + 1) =~= all.take(k as int).push(all[k as int]));
            assert(values.skip(k as int)[0] == column_value(s[all[k as int]], c));
            assert(values.skip(k as int).drop_first() =~= values.skip(k + 1));
        }
        k += 1;
    }
    proof {
        if k < order@.len() {
            assert(all[k as int] == m@[order@[k as int] as int]);
            assert(values.skip(k as int)[0] == column_value(s[all[k as int]], c));
        }
        assert(shown(values.skip(k as int), (n - k) as nat) == 0);
    }
    r
}

/// A listing of a report.
#[derive(Clone, Copy, Debug)]
pub struct Listing {
    pub title: &'static str,
    pub group: Group,
    pub column: Column,
    /// How many functions it shows at most.
    pub limit: usize,
    /// Whether the second axis is shown beside the value.
    pub two_columns: bool,
}

/// The listings of a profile of allocations, and those of any other.
pub open spec fn plan(is_heap: bool, two_columns: bool) -> Seq<Listing> {
    if is_heap {
        seq![
            Listing {
                title: if two_columns {
                    "Top allocation sites by bytes"
                } else {
                    "Top allocation sites"
                },
                group: Group::All,
                column: Column::Own,
                limit: 15,
                two_columns,
            },
        ]
    } else {
        seq![
            Listing {
                title: "Top user functions by self time (mem-mgmt frames hidden)",
                group: Group::Users,
                column: Column::Own,
                limit: 12,
                two_columns: false,
            },
            Listing {
                title: "Top user functions by mem-mgmt-attributed time (callers of allocs)",
                group: Group::Users,
                column: Column::Memory,
                limit: 12,
                two_columns: false,
            },
            Listing {
                title: "Top mem-mgmt primitives by self time",
                group: Group::Primitives,
                column: Column::Own,
                limit: 10,
                two_columns: false,
            },
        ]
    }
}

/// A listing with the functions that it shows.
#[derive(Debug)]
pub struct Section {
    pub listing: Listing,
    /// Positions among the functions of the summary.
    pub functions: Vec<usize>,
}

/// Whether sections are those of a plan.
pub open spec fn sections_match(sections: Seq<Section>, plan: Seq<Listing>, stats: Seq<FuncStatsView>) -> bool {
    &&& sections.len() == plan.len()
    &&& forall|i: int|
        0 <= i < plan.len() ==> (#[trigger] sections[i]).listing == plan[i] && places(sections[i].functions@) == top(
            stats,
            plan[i].group,
            plan[i].column,
            plan[i].limit as nat,
        )
}

/// The sections of a summary.
pub fn report(rollup: &Rollup, is_heap: bool, two_columns: bool) -> (r: Vec<Section>)
    ensures
        sections_match(r@, plan(is_heap, two_columns), rollup@.stats),
        forall|i: int, j: int|
            0 <= i < r@.len() && 0 <= j < r@[i].functions@.len() ==> (#[trigger] r@[i].functions@[j])
                < rollup.stats@.len(),
{
    let listings: Vec<Listing> = if is_heap {
        vec![
            Listing {
                title: if two_columns {
                    "Top allocation sites by bytes"
                } else {
                    "Top allocation sites"
                },
                group: Group::All,
                column: Column::Own,
                limit: 15,
                two_columns,
            },
        ]
    } else {
        vec![
            Listing {
                title: "Top user functions by self time (mem-mgmt frames hidden)",
                group: Group::Users,
                column: Column::Own,
                limit: 12,
                two_columns: false,
            },
            Listing {
                title: "Top user functions by mem-mgmt-attributed time (callers of allocs)",
                group: Group::Users,
                column: Column::Memory,
                limit: 12,
                two_columns: false,
            },
            Listing {
                title: "Top mem-mgmt primitives by self time",
                group: Group::Primitives,
                column: Column::Own,
                limit: 10,
                two_columns: false,
            },
        ]
    };
    assert(listings@ =~= plan(is_heap, two_columns));
    let mut r: Vec<Section> = Vec::new();
    for i in 0..listings.len()
        invariant
            listings@ == plan(is_heap, two_columns),
            sections_match(r@, listings@.take(i as int), rollup@.stats),
            forall|i: int, j: int|
                0 <= i < r@.len() && 0 <= j < r@[i].functions@.len() ==> (#[trigger] r@[i].functions@[j])
                    < rollup.stats@.len(),
    {
        let l = listings[i];
        let functions = top_functions(&rollup.stats, l.group, l.column, l.limit);
        r.push(Section { listing: l, functions });
    }
    assert(listings@.take(listings@.len() as int) =~= listings@);
    r
}

/// A function's own values in two profiles.
#[derive(Debug)]
pub struct DiffRow {
    pub name: String,
    pub base: i64,
    pub patched: i64,
    pub delta: i64,
}

/// The value of a [`DiffRow`].
#[verifier::ext_equal]
pub struct DiffRowView {
    pub name: Seq<char>,
    pub base: i64,
    pub patched: i64,
    pub delta: i64,
}

impl View for DiffRow {
    type V = DiffRowView;

    open spec fn view(&self) -> DiffRowView {
        DiffRowView { name: self.name@, base: self.base, patched: self.patched, delta: self.delta }
    }
}

pub open spec fn diff_views(s: Seq<DiffRow>) -> Seq<DiffRowView> {
    Seq::new(s.len(), |i: int| s[i]@)
}

/// Whether a function of this name is listed.
pub open spec fn is_listed(s: Seq<FuncStatsView>, name: Seq<char>) -> bool
    decreases s.len(),
{
    s.len() > 0 && (s.last().name == name || is_listed(s.drop_last(), name))
}

/// The own value of the function of this name, zero where there is none.
pub open spec fn own_value(s: Seq<FuncStatsView>, name: Seq<char>) -> i64
    decreases s.len(),
{
    if s.len() == 0 {
        0
    } else if s.last().name == name {
        s.last().self_v
    } else {
        own_value(s.drop_last(), name)
    }
}

pub open spec fn names_of(s: Seq<FuncStatsView>) -> Seq<Seq<char>> {
    Seq::new(s.len(), |i: int| s[i].name)
}

/// The names of two summaries, those of the first one in front.
pub open spec fn both_names(base: Seq<FuncStatsView>, patched: Seq<FuncStatsView>) -> Seq<Seq<char>> {
    first_seen(names_of(base) + names_of(patched))
}

/// How a function changed.
pub open spec fn diff_row(base: Seq<FuncStatsView>, patched: Seq<FuncStatsView>, name: Seq<char>) -> DiffRowView {
    let b = own_value(base, name);
    let p = own_value(patched, name);
    DiffRowView { name, base: b, patched: p, delta: (p - b) as i64 }
}

/// How the functions of two summaries changed.
pub open spec fn diff_rows(base: Seq<FuncStatsView>, patched: Seq<FuncStatsView>) -> Seq<DiffRowView> {
    let names = both_names(base, patched);
    Seq::new(names.len(), |i: int| diff_row(base, patched, names[i]))
}

/// Whether the changes are within 64 bits.
pub open spec fn rows_fit(base: Seq<FuncStatsView>, patched: Seq<FuncStatsView>, names: Seq<Seq<char>>) -> bool {
    forall|i: int|
        0 <= i < names.len() ==> is_i64(
            own_value(patched, #[trigger] names[i]) - own_value(base, names[i]),
        )
}

spec fn own_map(m: Map<Seq<char>, i64>, s: Seq<FuncStatsView>) -> bool {
    forall|name: Seq<char>|
        #![trigger m.contains_key(name)]
        m.contains_key(name) == is_listed(s, name) && own_value(s, name) == if m.contains_key(name) {
            m[name]
        } else {
            0
        }
}

fn map_own(stats: &Vec<FuncStats>) -> (r: StringHashMap<i64>)
    ensures
        own_map(r@, stats_views(stats@)),
{
    let ghost s = stats_views(stats@);
    let mut r = StringHashMap::new();
    for i in 0..stats.len()
        invariant
            s == stats_views(stats@),
            own_map(r@, s.take(i as int)),
    {
        let ghost before = r@;
        r.insert(stats[i].name.clone(), stats[i].self_v);
        proof {
            assert(s.take(i + 1).drop_last() =~= s.take(i as int));
            assert(s.take(i + 1).last() == stats@[i as int]@);
            assert forall|name: Seq<char>|
                #![trigger r@.contains_key(name)]
                r@.contains_key(name) == is_listed(s.take(i + 1), name) && own_value(s.take(i + 1), name)
                    == if r@.contains_key(name) {
                    r@[name]
                } else {
                    0
                } by {
                assert(before.contains_key(name) == is_listed(s.take(i as int), name));
            }
        }
    }
    assert(s.take(s.len() as int) =~= s);
    r
}

fn own_of(m: &StringHashMap<i64>, name: &str, s: Ghost<Seq<FuncStatsView>>) -> (r: i64)
    requires
        own_map(m@, s@),
    ensures
        r == own_value(s@, name@),
{
    match m.get(name) {
        Some(v) => {
            assert(m@.contains_key(name@));
            *v
        },
        None => {
            assert(!m@.contains_key(name@));
            0
        },
    }
}

fn gather_names(names: &mut Vec<String>, index: &mut TextIndex, stats: &Vec<FuncStats>, all: Ghost<Seq<Seq<char>>>)
    requires
        old(index).wf(),
        old(index).table() == texts(old(names)@),
        texts(old(names)@) == first_seen(all@),
    ensures
        final(index).wf(),
        final(index).table() == texts(final(names)@),
        texts(final(names)@) == first_seen(all@ + names_of(stats_views(stats@))),
{
    let ghost more = names_of(stats_views(stats@));
    assert(all@ + more.take(0) =~= all@);
    for i in 0..stats.len()
        invariant
            index.wf(),
            index.table() == texts(names@),
            more == names_of(stats_views(stats@)),
            texts(names@) == first_seen(all@ + more.take(i as int)),
    {
        proof {
            let next = all@ + more.take(i + 1);
            assert(next.drop_last() =~= all@ + more.take(i as int));
            assert(next.last() == stats@[i as int].name@);
        }
        let _ = enter_name(names, index, stats[i].name.as_str());
    }
    assert(more.take(more.len() as int) =~= more);
}

/// How the functions of two summaries changed. `None` stands for a change beyond 64 bits.
fn compare_stats(base: &Vec<FuncStats>, patched: &Vec<FuncStats>) -> (r: Option<Vec<DiffRow>>)
    ensures
        ({
            let b = stats_views(base@);
            let p = stats_views(patched@);
            match r {
                Some(rows) => rows_fit(b, p, both_names(b, p)) && diff_views(rows@) == diff_rows(b, p),
                None => !rows_fit(b, p, both_names(b, p)),
            }
        }),
{
    let ghost b = stats_views(base@);
    let ghost p = stats_views(patched@);
    let mut names: Vec<String> = Vec::new();
    let mut index = TextIndex::new();
    assert(texts(names@) =~= first_seen(Seq::<Seq<char>>::empty()));
    gather_names(&mut names, &mut index, base, Ghost(Seq::empty()));
    assert(Seq::<Seq<char>>::empty() + names_of(b) =~= names_of(b));
    gather_names(&mut names, &mut index, patched, Ghost(names_of(b)));
    let base_own = map_own(base);
    let patched_own = map_own(patched);
    let ghost all = both_names(b, p);
    assert(texts(names@) == all);
    let mut rows: Vec<DiffRow> = Vec::new();
    for i in 0..names.len()
        invariant
            b == stats_views(base@),
            p == stats_views(patched@),
            own_map(base_own@, b),
            own_map(patched_own@, p),
            all == both_names(b, p),
            texts(names@) == all,
            rows@.len() == i,
            forall|k: int| 0 <= k < i ==> is_i64(own_value(p, #[trigger] all[k]) - own_value(b, all[k])),
            forall|k: int| 0 <= k < i ==> (#[trigger] rows@[k])@ == diff_row(b, p, all[k]),
    {
        assert(all[i as int] == names@[i as int]@);
        let x: i64 = own_of(&base_own, names[i].as_str(), Ghost(b));
        let y: i64 = own_of(&patched_own, names[i].as_str(), Ghost(p));
        match y.checked_sub(x) {
            Some(delta) => {
                let row = DiffRow { name: names[i].clone(), base: x, patched: y, delta };
                assert(row@ =~= diff_row(b, p, all[i as int]));
                rows.push(row);
            },
            None => {
                assert(!is_i64(own_value(p, all[i as int]) - own_value(b, all[i as int])));
                return None;
            },
        }
    }
    assert(diff_views(rows@) =~= diff_rows(b, p));
    Some(rows)
}

/// Kinds of changes.
#[derive(Clone, Copy, Debug, PartialEq, Eq, Structural)]
pub enum Change {
    /// In both profiles, and less in the patched one.
    Improved,
    /// In both profiles, and more in the patched one.
    Regressed,
    /// In the base profile alone.
    Gone,
    /// In the patched profile alone.
    New,
}

/// Whether a function changed in this way.
pub open spec fn has_change(r: DiffRowView, c: Change) -> bool {
    match c {
        Change::Improved => r.delta < 0 && r.base > 0 && r.patched > 0,
        Change::Regressed => r.delta > 0 && r.base > 0 && r.patched > 0,
        Change::Gone => r.base > 0 && r.patched == 0,
        Change::New => r.base == 0 && r.patched > 0,
    }
}

/// What changes are listed by, the smallest first.
pub open spec fn change_key(r: DiffRowView, c: Change) -> int {
    match c {
        Change::Improved => r.delta as int,
        Change::Regressed => -r.delta,
        Change::Gone => -r.base,
        Change::New => -r.patched,
    }
}

/// How many changes are shown.
pub open spec fn change_limit(c: Change) -> nat {
    match c {
        Change::Improved => 15,
        _ => 10,
    }
}

/// The functions that changed in this way.
pub open spec fn changed(s: Seq<DiffRowView>, c: Change) -> Seq<int>
    decreases s.len(),
{
    if s.len() == 0 {
        Seq::empty()
    } else if has_change(s.last(), c) {
        changed(s.drop_last(), c).push(s.len() - 1)
    } else {
        changed(s.drop_last(), c)
    }
}

/// The leading changes.
pub open spec fn top_changes(s: Seq<DiffRowView>, c: Change) -> Seq<int> {
    let m = changed(s, c);
    let order = ranked(Seq::new(m.len(), |i: int| change_key(s[m[i]], c)));
    let n = if m.len() < change_limit(c) {
        m.len()
    } else {
        change_limit(c)
    };
    Seq::new(n, |i: int| m[order[i]])
}

fn changed_in(rows: &Vec<DiffRow>, c: Change) -> (r: Vec<usize>)
    ensures
        places(r@) == changed(diff_views(rows@), c),
        forall|i: int| 0 <= i < r@.len() ==> (#[trigger] r@[i]) < rows@.len(),
{
    let ghost s = diff_views(rows@);
    let mut r: Vec<usize> = Vec::new();
    assert(places(r@) =~= changed(s.take(0), c));
    for i in 0..rows.len()
        invariant
            s == diff_views(rows@),
            places(r@) == changed(s.take(i as int), c),
            forall|k: int| 0 <= k < r@.len() ==> (#[trigger] r@[k]) < i,
    {
        let ghost before = r@;
        proof {
            assert(s.take(i + 1).drop_last() =~= s.take(i as int));
            assert(s.take(i + 1).last() == rows@[i as int]@);
        }
        let row = &rows[i];
        let hit: bool = match c {
            Change::Improved => row.delta < 0 && row.base > 0 && row.patched > 0,
            Change::Regressed => row.delta > 0 && row.base > 0 && row.patched > 0,
            Change::Gone => row.base > 0 && row.patched == 0,
            Change::New => row.base == 0 && row.patched > 0,
        };
        if hit {
            r.push(i);
            assert(places(r@) =~= places(before).push(i as int));
        }
    }
    assert(s.take(s.len() as int) =~= s);
    r
}

/// The leading changes.
pub fn list_changes(rows: &Vec<DiffRow>, c: Change) -> (r: Vec<usize>)
    ensures
        places(r@) == top_changes(diff_views(rows@), c),
        forall|i: int| 0 <= i < r@.len() ==> (#[trigger] r@[i]) < rows@.len(),
{
    let ghost s = diff_views(rows@);
    let m = changed_in(rows, c);
    let mut keys: Vec<i128> = Vec::new();
    for i in 0..m.len()
        invariant
            s == diff_views(rows@),
            forall|k: int| 0 <= k < m@.len() ==> (#[trigger] m@[k]) < rows@.len(),
            keys@.len() == i,
            forall|k: int| 0 <= k < i ==> (#[trigger] keys@[k]) == change_key(s[m@[k] as int], c),
    {
        let row = &rows[m[i]];
        keys.push(
            match c {
                Change::Improved => row.delta as i128,
                Change::Regressed => -(row.delta as i128),
                Change::Gone => -(row.base as i128),
                Change::New => -(row.patched as i128),
            },
        );
    }
    let order = rank(&keys);
    let ghost mm = changed(s, c);
    proof {
        let want = Seq::new(mm.len(), |i: int| change_key(s[mm[i]], c));
        assert forall|i: int| 0 <= i < mm.len() implies as_ints(keys@)[i] == want[i] by {
            assert(places(m@)[i] == mm[i]);
        }
        assert(as_ints(keys@) =~= want);
        assert(places(order@) == ranked(want));
    }
    let limit: usize = match c {
        Change::Improved => 15,
        _ => 10,
    };
    let n: usize = if m.len() < limit {
        m.len()
    } else {
        limit
    };
    let mut r: Vec<usize> = Vec::new();
    for i in 0..n
        invariant
            n <= m@.len(),
            m@.len() == order@.len(),
            mm == places(m@),
            forall|k: int| 0 <= k < m@.len() ==> (#[trigger] m@[k]) < rows@.len(),
            forall|a: int| 0 <= a < order@.len() ==> (#[trigger] order@[a]) < m@.len(),
            r@.len() == i,
            forall|k: int| 0 <= k < i ==> (#[trigger] r@[k]) == mm[places(order@)[k]] && r@[k] < rows@.len(),
    {
        r.push(m[order[i]]);
    }
    assert(places(r@) =~= top_changes(s, c));
    r
}

/// The changes between two profiles.
#[derive(Debug)]
pub struct Diff {
    pub total_delta: i64,
    /// The change on the second axis, where there is one.
    pub total2_delta: Option<i64>,
    pub rows: Vec<DiffRow>,
}

/// Why two profiles cannot be compared.
#[derive(Clone, Copy, Debug, PartialEq, Eq, Structural)]
pub enum DiffError {
    /// One is a profile of allocations, and the other is not.
    Kinds,
    /// A change goes beyond 64 bits.
    Overflow,
}

/// Whether the changes between two profiles are within 64 bits.
pub open spec fn diff_fits(base: RollupView, patched: RollupView, second: bool) -> bool {
    &&& is_i64(patched.total - base.total)
    &&& second ==> is_i64(patched.total2 - base.total2)
    &&& rows_fit(base.stats, patched.stats, both_names(base.stats, patched.stats))
}

/// Whether a value holds the changes between two profiles.
pub open spec fn is_diff(d: Diff, base: RollupView, patched: RollupView, second: bool) -> bool {
    &&& d.total_delta == patched.total - base.total
    &&& d.total2_delta == if second {
        Some((patched.total2 - base.total2) as i64)
    } else {
        None
    }
    &&& diff_views(d.rows@) == diff_rows(base.stats, patched.stats)
}

/// Compares two profiles. `None` stands for a change beyond 64 bits.
pub fn compare_rollups(base: &Rollup, patched: &Rollup, second: bool) -> (r: Option<Diff>)
    ensures
        match r {
            Some(d) => diff_fits(base@, patched@, second) && is_diff(d, base@, patched@, second),
            None => !diff_fits(base@, patched@, second),
        },
{
    let total_delta: i64 = match patched.total.checked_sub(base.total) {
        Some(d) => d,
        None => {
            return None;
        },
    };
    let total2_delta: Option<i64> = if second {
        match patched.total2.checked_sub(base.total2) {
            Some(d) => Some(d),
            None => {
                return None;
            },
        }
    } else {
        None
    };
    match compare_stats(&base.stats, &patched.stats) {
        Some(rows) => Some(Diff { total_delta, total2_delta, rows }),
        None => None,
    }
}

/// Compares two summaries. They are shown on the axis of the first one.
pub fn compare_summaries(base: &Summary, patched: &Summary) -> (r: Result<Diff, DiffError>)
    ensures
        ({
            let second = base.axis.secondary_idx is Some;
            if base.axis.is_heap != patched.axis.is_heap {
                r == Err::<Diff, DiffError>(DiffError::Kinds)
            } else if !diff_fits(base.rollup@, patched.rollup@, second) {
                r == Err::<Diff, DiffError>(DiffError::Overflow)
            } else {
                r matches Ok(d) && is_diff(d, base.rollup@, patched.rollup@, second)
            }
        }),
{
    if base.axis.is_heap != patched.axis.is_heap {
        return Err(DiffError::Kinds);
    }
    match compare_rollups(&base.rollup, &patched.rollup, base.axis.secondary_idx.is_some()) {
        Some(d) => Ok(d),
        None => Err(DiffError::Overflow),
    }
}

/// The change of a function in the other direction.
pub open spec fn turned(c: Change) -> Change {
    match c {
        Change::Improved => Change::Regressed,
        Change::Regressed => Change::Improved,
        Change::Gone => Change::New,
        Change::New => Change::Gone,
    }
}

/// What is an improvement in one direction is a regression in the other, and what is gone
/// is new.
pub proof fn law_turned(base: Seq<FuncStatsView>, patched: Seq<FuncStatsView>, name: Seq<char>, c: Change)
    requires
        is_i64(own_value(patched, name) - own_value(base, name)),
        is_i64(own_value(base, name) - own_value(patched, name)),
    ensures
        has_change(diff_row(base, patched, name), c) == has_change(diff_row(patched, base, name), turned(c)),
{
}

/// A profile compared with itself shows no change.
pub proof fn law_no_change(s: Seq<FuncStatsView>, c: Change)
    ensures
        top_changes(diff_rows(s, s), c).len() == 0,
{
    lemma_none_changed(diff_rows(s, s), c);
}

proof fn lemma_none_changed(rows: Seq<DiffRowView>, c: Change)
    requires
        forall|i: int| 0 <= i < rows.len() ==> (#[trigger] rows[i]).base == rows[i].patched && rows[i].delta == 0,
    ensures
        changed(rows, c).len() == 0,
    decreases rows.len(),
{
    if rows.len() > 0 {
        let front = rows.drop_last();
        assert forall|i: int| 0 <= i < front.len() implies (#[trigger] front[i]).base == front[i].patched
            && front[i].delta == 0 by {
            assert(front[i] == rows[i]);
        }
        lemma_none_changed(front, c);
        assert(rows[rows.len() - 1].delta == 0);
    }
}

} // verus!

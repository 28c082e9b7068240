//! The functions of a profile with the values that fall to them.
use vstd::prelude::*;
use crate::axis::{axis_of, value_axis, ValueAxis};
use crate::num::is_i64;
use crate::pattern::{regex_valid, NameTest, OptionalPattern, Pattern};
use crate::pool::{entered, TextIndex};
use crate::proto::{
    string_at, text_at, texts, LocationView, Profile, ProfileView, Sample, SampleView,
};
use crate::resolve::{function_with, lemma_location_with, location_with, ProfileIndex};
use crate::tally::{count_of, first_seen, lemma_first_seen};

verus! {

/// The name of the innermost frame of a location.
pub open spec fn location_name(p: ProfileView, loc: LocationView) -> Seq<char> {
    if loc.line.len() == 0 {
        "(unknown)"@
    } else {
        match function_with(p.function, loc.line[0].function_id) {
            Some(k) => text_at(p.string_table, p.function[k].name),
            None => "(unknown)"@,
        }
    }
}

/// The names of all locations.
pub open spec fn location_names(p: ProfileView) -> Seq<Seq<char>> {
    Seq::new(p.location.len(), |i: int| location_name(p, p.location[i]))
}

/// Every name that a summary can list.
pub open spec fn all_names(p: ProfileView) -> Seq<Seq<char>> {
    first_seen(location_names(p).push("(unknown)"@))
}

/// The names of the locations that are there, in the order of `ids`.
pub open spec fn known_names(p: ProfileView, ids: Seq<u64>) -> Seq<Seq<char>>
    decreases ids.len(),
{
    if ids.len() == 0 {
        Seq::empty()
    } else {
        let front = known_names(p, ids.drop_last());
        match location_with(p.location, ids.last()) {
            Some(i) => front.push(location_name(p, p.location[i])),
            None => front,
        }
    }
}

/// The first name that is not passed over.
pub open spec fn first_shown<D: NameTest>(names: Seq<Seq<char>>, dropped: D) -> Seq<char>
    decreases names.len(),
{
    if names.len() == 0 {
        "(unknown)"@
    } else if dropped.holds(names[0]) {
        first_shown(names.drop_first(), dropped)
    } else {
        names[0]
    }
}

/// Which frame a sample's own value falls to.
#[derive(Clone, Copy, Debug, PartialEq, Eq, Structural)]
pub enum LeafRule {
    /// The innermost one.
    Innermost,
    /// The innermost one that has a location and is not passed over.
    InnermostShown,
}

/// How the samples of a profile are read.
#[derive(Clone, Copy, Debug, PartialEq, Eq, Structural)]
pub struct Reading {
    pub idx: usize,
    pub secondary_idx: Option<usize>,
    /// Memory management is left out of account where every sample is an allocation.
    pub is_heap: bool,
    pub leaf: LeafRule,
}

/// The value of a sample at an axis.
pub open spec fn value_at(values: Seq<i64>, idx: usize) -> i64 {
    if idx < values.len() {
        values[idx as int]
    } else {
        0
    }
}

/// What a sample adds to a summary.
pub struct Hit {
    pub value: i64,
    pub second: i64,
    /// The name that the sample's own value falls to.
    pub leaf: Seq<char>,
    /// The names on its stack.
    pub names: Seq<Seq<char>>,
    /// Whether it is spent on memory management.
    pub is_mem: bool,
}

/// The name that the sample's own value falls to.
pub open spec fn leaf_name<D: NameTest>(p: ProfileView, ids: Seq<u64>, rule: LeafRule, dropped: D) -> Seq<char> {
    match rule {
        LeafRule::Innermost => if ids.len() > 0 && location_with(p.location, ids[0]) is Some {
            location_name(p, p.location[location_with(p.location, ids[0]).unwrap()])
        } else {
            "(unknown)"@
        },
        LeafRule::InnermostShown => first_shown(known_names(p, ids), dropped),
    }
}

/// What a sample adds to a summary.
pub open spec fn hit<M: NameTest, D: NameTest>(p: ProfileView, r: Reading, mem: M, dropped: D, s: SampleView) -> Hit {
    let leaf = leaf_name(p, s.location_id, r.leaf, dropped);
    Hit {
        value: value_at(s.value, r.idx),
        second: match r.secondary_idx {
            Some(i) => value_at(s.value, i),
            None => 0,
        },
        leaf,
        names: known_names(p, s.location_id),
        is_mem: !r.is_heap && mem.holds(leaf),
    }
}

/// What the samples add to a summary.
pub open spec fn hits<M: NameTest, D: NameTest>(p: ProfileView, r: Reading, mem: M, dropped: D) -> Seq<Hit> {
    Seq::new(p.sample.len(), |i: int| hit(p, r, mem, dropped, p.sample[i]))
}

/// The sum of the values.
pub open spec fn total_value(h: Seq<Hit>) -> int
    decreases h.len(),
{
    if h.len() == 0 {
        0
    } else {
        total_value(h.drop_last()) + h.last().value
    }
}

/// The sum of the values of the second axis.
pub open spec fn total_second(h: Seq<Hit>) -> int
    decreases h.len(),
{
    if h.len() == 0 {
        0
    } else {
        total_second(h.drop_last()) + h.last().second
    }
}

/// The sum of the values that were spent on memory management.
pub open spec fn total_mem(h: Seq<Hit>) -> int
    decreases h.len(),
{
    if h.len() == 0 {
        0
    } else {
        total_mem(h.drop_last()) + if h.last().is_mem {
            h.last().value as int
        } else {
            0
        }
    }
}

/// The sum of the values that fall to a name itself.
pub open spec fn self_value(h: Seq<Hit>, name: Seq<char>) -> int
    decreases h.len(),
{
    if h.len() == 0 {
        0
    } else {
        self_value(h.drop_last(), name) + if h.last().leaf == name {
            h.last().value as int
        } else {
            0
        }
    }
}

/// The same of the second axis.
pub open spec fn self_second(h: Seq<Hit>, name: Seq<char>) -> int
    decreases h.len(),
{
    if h.len() == 0 {
        0
    } else {
        self_second(h.drop_last(), name) + if h.last().leaf == name {
            h.last().second as int
        } else {
            0
        }
    }
}

/// The sum of the values of the samples that have the name on their stack.
pub open spec fn cum_value(h: Seq<Hit>, name: Seq<char>) -> int
    decreases h.len(),
{
    if h.len() == 0 {
        0
    } else {
        cum_value(h.drop_last(), name) + if h.last().names.contains(name) {
            h.last().value as int
        } else {
            0
        }
    }
}

/// The sum of the values that were spent on memory management, once for each time that
/// the name is on the stack.
pub open spec fn mem_value(h: Seq<Hit>, name: Seq<char>) -> int
    decreases h.len(),
{
    if h.len() == 0 {
        0
    } else {
        mem_value(h.drop_last(), name) + if h.last().is_mem {
            count_of(h.last().names, name) * h.last().value
        } else {
            0
        }
    }
}

/// Whether a name occurs in a summary.
pub open spec fn occurs(h: Seq<Hit>, name: Seq<char>) -> bool
    decreases h.len(),
{
    h.len() > 0 && (occurs(h.drop_last(), name) || h.last().leaf == name || h.last().names.contains(name))
}

/// The sums of a name.
pub open spec fn name_fits<M: NameTest>(h: Seq<Hit>, name: Seq<char>, mem: M) -> bool {
    &&& is_i64(self_value(h, name))
    &&& is_i64(self_second(h, name))
    &&& is_i64(cum_value(h, name))
    &&& !mem.holds(name) ==> is_i64(mem_value(h, name))
}

/// Whether all sums are within 64 bits.
pub open spec fn sums_fit<M: NameTest>(h: Seq<Hit>, mem: M) -> bool {
    &&& is_i64(total_value(h))
    &&& is_i64(total_second(h))
    &&& is_i64(total_mem(h))
    &&& forall|name: Seq<char>| name_fits(h, name, mem)
}

/// Whether all sums stay within 64 bits while the samples are gone through.
pub open spec fn summary_fits<M: NameTest>(h: Seq<Hit>, mem: M) -> bool {
    forall|k: int| 0 <= k <= h.len() ==> sums_fit(#[trigger] h.take(k), mem)
}

/// What falls to a function.
#[derive(Debug)]
pub struct FuncStats {
    pub name: String,
    /// Its own value.
    pub self_v: i64,
    /// The value of the samples that it is on the stack of.
    pub cum: i64,
    /// The value of those of them that were spent on memory management.
    pub mem_cum: i64,
    /// Its own value on the second axis.
    pub self_v2: i64,
    /// Whether it is memory management itself.
    pub is_mem: bool,
}

/// The value of [`FuncStats`].
#[verifier::ext_equal]
pub struct FuncStatsView {
    pub name: Seq<char>,
    pub self_v: i64,
    pub cum: i64,
    pub mem_cum: i64,
    pub self_v2: i64,
    pub is_mem: bool,
}

impl View for FuncStats {
    type V = FuncStatsView;

    open spec fn view(&self) -> FuncStatsView {
        FuncStatsView {
            name: self.name@,
            self_v: self.self_v,
            cum: self.cum,
            mem_cum: self.mem_cum,
            self_v2: self.self_v2,
            is_mem: self.is_mem,
        }
    }
}

pub open spec fn stats_views(s: Seq<FuncStats>) -> Seq<FuncStatsView> {
    Seq::new(s.len(), |i: int| s[i]@)
}

/// What falls to a name.
pub open spec fn stats_of<M: NameTest>(h: Seq<Hit>, name: Seq<char>, mem: M) -> FuncStatsView {
    FuncStatsView {
        name,
        self_v: self_value(h, name) as i64,
        cum: cum_value(h, name) as i64,
        mem_cum: if mem.holds(name) {
            0
        } else {
            mem_value(h, name) as i64
        },
        self_v2: self_second(h, name) as i64,
        is_mem: mem.holds(name),
    }
}

/// What falls to the names that occur, in the order of `names`.
pub open spec fn stats_in<M: NameTest>(h: Seq<Hit>, names: Seq<Seq<char>>, mem: M) -> Seq<FuncStatsView>
    decreases names.len(),
{
    if names.len() == 0 {
        Seq::empty()
    } else {
        let front = stats_in(h, names.drop_last(), mem);
        if occurs(h, names.last()) {
            front.push(stats_of(h, names.last(), mem))
        } else {
            front
        }
    }
}

/// The totals of a profile and what falls to its functions.
#[derive(Debug)]
pub struct Rollup {
    pub total: i64,
    pub total2: i64,
    pub mem_mgmt_total: i64,
    pub num_samples: usize,
    /// In the order in which the functions' names first stand among the locations.
    pub stats: Vec<FuncStats>,
}

/// The value of a [`Rollup`].
#[verifier::ext_equal]
pub struct RollupView {
    pub total: i64,
    pub total2: i64,
    pub mem_mgmt_total: i64,
    pub num_samples: usize,
    pub stats: Seq<FuncStatsView>,
}

impl View for Rollup {
    type V = RollupView;

    open spec fn view(&self) -> RollupView {
        RollupView {
            total: self.total,
            total2: self.total2,
            mem_mgmt_total: self.mem_mgmt_total,
            num_samples: self.num_samples,
            stats: stats_views(self.stats@),
        }
    }
}

/// The totals of a profile and what falls to its functions.
pub open spec fn rollup<M: NameTest, D: NameTest>(p: ProfileView, r: Reading, mem: M, dropped: D) -> RollupView {
    let h = hits(p, r, mem, dropped);
    RollupView {
        total: total_value(h) as i64,
        total2: total_second(h) as i64,
        mem_mgmt_total: total_mem(h) as i64,
        num_samples: p.sample.len() as usize,
        stats: stats_in(h, all_names(p), mem),
    }
}

/// The names of the locations by number: `known_names` as positions in a table.
spec fn spelled(ids: Seq<usize>, table: Seq<Seq<char>>) -> Seq<Seq<char>> {
    Seq::new(ids.len(), |j: int| table[ids[j] as int])
}

/// The sums of one name while the samples are gone through.
struct Sums {
    self_v: i64,
    cum: i64,
    mem_cum: i64,
    self_v2: i64,
    occurs: bool,
    /// One more than the last sample that had the name on its stack.
    stamp: usize,
}

spec fn sums_match<M: NameTest>(s: Sums, h: Seq<Hit>, name: Seq<char>, mem: M) -> bool {
    &&& s.self_v == self_value(h, name)
    &&& s.self_v2 == self_second(h, name)
    &&& s.cum == cum_value(h, name)
    &&& s.mem_cum == if mem.holds(name) {
        0
    } else {
        mem_value(h, name)
    }
    &&& s.occurs == occurs(h, name)
}

spec fn all_match<M: NameTest>(acc: Seq<Sums>, h: Seq<Hit>, table: Seq<Seq<char>>, mem: M) -> bool {
    &&& acc.len() == table.len()
    &&& forall|i: int| 0 <= i < table.len() ==> sums_match(#[trigger] acc[i], h, table[i], mem)
}

proof fn lemma_count_take<K>(s: Seq<K>, j: int, k: K)
    requires
        0 <= j <= s.len(),
    ensures
        0 <= count_of(s.take(j), k) <= count_of(s, k),
    decreases s.len(),
{
    crate::tally::lemma_count_nonnegative(s.take(j), k);
    if j < s.len() {
        assert(s.drop_last().take(j) =~= s.take(j));
        lemma_count_take(s.drop_last(), j, k);
    } else {
        assert(s.take(j) =~= s);
    }
}

/// Sums that have taken in a sample but for the names behind the first `j` of its stack.
spec fn partway<M: NameTest>(s: Sums, h: Seq<Hit>, x: Hit, name: Seq<char>, mem: M, j: int) -> bool {
    let met = x.names.take(j).contains(name);
    &&& s.self_v == self_value(h.push(x), name)
    &&& s.self_v2 == self_second(h.push(x), name)
    &&& s.cum == cum_value(h, name) + if met {
        x.value as int
    } else {
        0
    }
    &&& s.mem_cum == if mem.holds(name) {
        0
    } else {
        mem_value(h, name) + if x.is_mem {
            count_of(x.names.take(j), name) * x.value
        } else {
            0
        }
    }
    &&& s.occurs == (occurs(h, name) || x.leaf == name || met)
}

proof fn lemma_partway_done<M: NameTest>(s: Sums, h: Seq<Hit>, x: Hit, name: Seq<char>, mem: M)
    requires
        partway(s, h, x, name, mem, x.names.len() as int),
    ensures
        sums_match(s, h.push(x), name, mem),
{
    assert(x.names.take(x.names.len() as int) =~= x.names);
    assert(h.push(x).drop_last() =~= h);
}

proof fn lemma_mem_overflow(base: int, c: int, all: int, v: int)
    requires
        is_i64(base),
        0 <= c <= all,
        !is_i64(base + c * v),
    ensures
        !is_i64(base + all * v),
{
    if v > 0 {
        assert(c * v >= 0) by (nonlinear_arith)
            requires
                c >= 0,
                v > 0,
        ;
        assert(all * v >= c * v) by (nonlinear_arith)
            requires
                all >= c,
                v > 0,
        ;
    } else {
        assert(c * v <= 0) by (nonlinear_arith)
            requires
                c >= 0,
                v <= 0,
        ;
        assert(all * v <= c * v) by (nonlinear_arith)
            requires
                all >= c,
                v <= 0,
        ;
    }
}

/// Adds the sample's own value to its name.
fn credit_own<M: NameTest>(
    acc: &mut Vec<Sums>,
    leaf: usize,
    value: i64,
    second: i64,
    mem: &M,
    table: Ghost<Seq<Seq<char>>>,
    h: Ghost<Seq<Hit>>,
    x: Ghost<Hit>,
) -> (r: bool)
    requires
        all_match(old(acc)@, h@, table@, *mem),
        table@.no_duplicates(),
        leaf < table@.len(),
        x@.leaf == table@[leaf as int],
        x@.value == value,
        x@.second == second,
    ensures
        r ==> final(acc)@.len() == table@.len() && (forall|i: int|
            0 <= i < table@.len() ==> partway(#[trigger] final(acc)@[i], h@, x@, table@[i], *mem, 0)
                && final(acc)@[i].stamp == old(acc)@[i].stamp),
        !r ==> !sums_fit(h@.push(x@), *mem),
{
    let ghost a0 = acc@;
    let ghost name = table@[leaf as int];
    proof {
        assert(h@.push(x@).drop_last() =~= h@);
        assert(sums_match(a0[leaf as int], h@, name, *mem));
    }
    let s: i64 = match acc[leaf].self_v.checked_add(value) {
        Some(s) => s,
        None => {
            assert(!name_fits(h@.push(x@), name, *mem));
            return false;
        },
    };
    let s2: i64 = match acc[leaf].self_v2.checked_add(second) {
        Some(s) => s,
        None => {
            assert(!name_fits(h@.push(x@), name, *mem));
            return false;
        },
    };
    acc[leaf].self_v = s;
    acc[leaf].self_v2 = s2;
    acc[leaf].occurs = true;
    proof {
        assert forall|i: int| 0 <= i < table@.len() implies partway(#[trigger] acc@[i], h@, x@, table@[i], *mem, 0)
            && acc@[i].stamp == a0[i].stamp by {
            assert(sums_match(a0[i], h@, table@[i], *mem));
            assert(x@.names.take(0) =~= Seq::empty());
            if i != leaf {
                assert(table@[i] != table@[leaf as int]);
                assert(acc@[i] == a0[i]);
            }
        }
    }
    true
}

/// Adds the sample to the names on its stack.
fn credit_stack<M: NameTest>(
    acc: &mut Vec<Sums>,
    ids: &Vec<usize>,
    value: i64,
    is_mem: bool,
    flags: &Vec<bool>,
    stamp: usize,
    mem: &M,
    table: Ghost<Seq<Seq<char>>>,
    h: Ghost<Seq<Hit>>,
    x: Ghost<Hit>,
) -> (r: bool)
    requires
        old(acc)@.len() == table@.len(),
        forall|i: int|
            0 <= i < table@.len() ==> partway(#[trigger] old(acc)@[i], h@, x@, table@[i], *mem, 0)
                && old(acc)@[i].stamp < stamp,
        sums_fit(h@, *mem),
        table@.no_duplicates(),
        forall|j: int| 0 <= j < ids@.len() ==> (#[trigger] ids@[j]) < table@.len(),
        x@.names == spelled(ids@, table@),
        x@.value == value,
        x@.is_mem == is_mem,
        flags@.len() == table@.len(),
        forall|i: int| 0 <= i < table@.len() ==> (#[trigger] flags@[i]) == mem.holds(table@[i]),
    ensures
        r ==> all_match(final(acc)@, h@.push(x@), table@, *mem) && (forall|i: int|
            0 <= i < table@.len() ==> (#[trigger] final(acc)@[i]).stamp <= stamp),
        !r ==> !sums_fit(h@.push(x@), *mem),
{
    let ghost names = x@.names;
    let ghost h1 = h@.push(x@);
    proof {
        assert(h1.drop_last() =~= h@);
        assert(names.take(0) =~= Seq::empty());
    }
    for j in 0..ids.len()
        invariant
            acc@.len() == table@.len(),
            forall|i: int|
                0 <= i < table@.len() ==> partway(#[trigger] acc@[i], h@, x@, table@[i], *mem, j as int)
                    && acc@[i].stamp <= stamp && (acc@[i].stamp == stamp) == names.take(j as int).contains(table@[i]),
            sums_fit(h@, *mem),
            table@.no_duplicates(),
            forall|j: int| 0 <= j < ids@.len() ==> (#[trigger] ids@[j]) < table@.len(),
            names == x@.names,
            names == spelled(ids@, table@),
            x@.value == value,
            x@.is_mem == is_mem,
            flags@.len() == table@.len(),
            forall|i: int| 0 <= i < table@.len() ==> (#[trigger] flags@[i]) == mem.holds(table@[i]),
            h1 == h@.push(x@),
            h1.drop_last() == h@,
    {
        let i: usize = ids[j];
        let ghost name = table@[i as int];
        let ghost before = acc@;
        let ghost now = names.take(j as int);
        let ghost next = names.take(j + 1);
        proof {
            assert(names[j as int] == name);
            assert(next =~= now.push(name));
            assert(next.last() == name && next.drop_last() =~= now);
            assert(partway(before[i as int], h@, x@, name, *mem, j as int));
            assert(name_fits(h@, name, *mem));
            assert(names.contains(name));
        }
        if acc[i].stamp != stamp {
            let s: i64 = match acc[i].cum.checked_add(value) {
                Some(s) => s,
                None => {
                    assert(!name_fits(h1, name, *mem));
                    return false;
                },
            };
            acc[i].cum = s;
            acc[i].stamp = stamp;
            acc[i].occurs = true;
        }
        if is_mem && !flags[i] {
            let s: i64 = match acc[i].mem_cum.checked_add(value) {
                Some(s) => s,
                None => {
                    proof {
                        lemma_count_take(names, j + 1, name);
                        let c = count_of(now, name);
                        assert((c + 1) * value == c * value + value) by (nonlinear_arith);
                        lemma_mem_overflow(mem_value(h@, name), c + 1, count_of(names, name), value as int);
                        assert(!name_fits(h1, name, *mem));
                    }
                    return false;
                },
            };
            acc[i].mem_cum = s;
        }
        proof {
            let c = count_of(now, name);
            assert((c + 1) * value == c * value + value) by (nonlinear_arith);
            assert forall|m: int| 0 <= m < table@.len() implies partway(
                #[trigger] acc@[m],
                h@,
                x@,
                table@[m],
                *mem,
                j + 1,
            ) && acc@[m].stamp <= stamp && (acc@[m].stamp == stamp) == names.take(j + 1).contains(table@[m]) by {
                assert(partway(before[m], h@, x@, table@[m], *mem, j as int));
                if m != i {
                    assert(table@[m] != name);
                    assert(acc@[m] == before[m]);
                    if next.contains(table@[m]) {
                        let q = choose|q: int| 0 <= q < next.len() && next[q] == table@[m];
                        assert(now[q] == table@[m]);
                    }
                    if now.contains(table@[m]) {
                        let q = choose|q: int| 0 <= q < now.len() && now[q] == table@[m];
                        assert(next[q] == table@[m]);
                    }
                } else {
                    assert(next[j as int] == name);
                }
            }
        }
    }
    proof {
        assert forall|i: int| 0 <= i < table@.len() implies sums_match(#[trigger] acc@[i], h1, table@[i], *mem) by {
            assert(partway(acc@[i], h@, x@, table@[i], *mem, ids@.len() as int));
            lemma_partway_done(acc@[i], h@, x@, table@[i], *mem);
        }
    }
    true
}

/// The names of a profile's locations by number.
struct NameTable {
    names: Vec<String>,
    by_location: Vec<usize>,
    unknown: usize,
}

impl NameTable {
    spec fn table(&self) -> Seq<Seq<char>> {
        texts(self.names@)
    }

    spec fn is_of(&self, p: ProfileView) -> bool {
        &&& self.table() == all_names(p)
        &&& self.table().no_duplicates()
        &&& self.by_location@.len() == p.location.len()
        &&& forall|i: int| #![trigger self.by_location@[i]]
            0 <= i < p.location.len() ==> self.by_location@[i] < self.names@.len()
                && self.table()[self.by_location@[i] as int] == location_name(p, p.location[i])
        &&& self.unknown < self.names@.len()
        &&& self.table()[self.unknown as int] == "(unknown)"@
    }
}

/// The number of a name, which is put at the end of the list where it is new.
pub(crate) fn enter_name(names: &mut Vec<String>, index: &mut TextIndex, name: &str) -> (r: usize)
    requires
        old(index).wf(),
        old(index).table() == texts(old(names)@),
    ensures
        final(index).wf(),
        final(index).table() == texts(final(names)@),
        texts(final(names)@) == entered(texts(old(names)@), name@),
        r < final(names)@.len(),
        texts(final(names)@)[r as int] == name@,
{
    let ghost t = texts(names@);
    let n: usize = names.len();
    match index.get(name) {
        Some(id) => {
            proof {
                let k = t.index_of(name@);
                assert(0 <= k < t.len() && t[k] == name@);
                assert(k < n);
            }
            (id - 1) as usize
        },
        None => {
            names.push(name.to_owned());
            let id: u64 = names.len() as u64;
            index.push(name.to_owned(), id);
            assert(texts(names@) =~= t.push(name@));
            n
        },
    }
}

/// The name of the innermost frame of a location.
fn name_of_location(index: &ProfileIndex, i: usize) -> (r: String)
    requires
        index.wf(),
        i < index.of().location@.len(),
    ensures
        r@ == location_name(index.of()@, index.of()@.location[i as int]),
{
    let p = index.profile();
    let loc = &p.location[i];
    if loc.line.len() == 0 {
        return "(unknown)".to_owned();
    }
    match index.function(loc.line[0].function_id) {
        Some(k) => string_at(p, p.function[k].name).to_owned(),
        None => "(unknown)".to_owned(),
    }
}

/// The names of a profile's locations.
fn resolve_top_lines(index: &ProfileIndex) -> (r: NameTable)
    requires
        index.wf(),
    ensures
        r.is_of(index.of()@),
{
    let p = index.profile();
    let ghost all = location_names(p@);
    let mut names: Vec<String> = Vec::new();
    let mut keys = TextIndex::new();
    let mut by_location: Vec<usize> = Vec::new();
    assert(texts(names@) =~= first_seen(all.take(0)));
    for i in 0..p.location.len()
        invariant
            index.wf(),
            *p == index.of(),
            all == location_names(p@),
            keys.wf(),
            keys.table() == texts(names@),
            texts(names@) == first_seen(all.take(i as int)),
            by_location@.len() == i,
            forall|k: int| #![trigger by_location@[k]]
                0 <= k < i ==> by_location@[k] < names@.len() && texts(names@)[by_location@[k] as int] == all[k],
    {
        let ghost before = texts(names@);
        let ghost n0 = names@.len();
        let name = name_of_location(index, i);
        let id: usize = enter_name(&mut names, &mut keys, name.as_str());
        by_location.push(id);
        proof {
            assert(all.take(i + 1).drop_last() =~= all.take(i as int));
            assert(all.take(i + 1).last() == all[i as int]);
            assert(all[i as int] == name@);
            assert forall|k: int| #![trigger by_location@[k]] 0 <= k < i + 1 implies by_location@[k] < names@.len()
                && texts(names@)[by_location@[k] as int] == all[k] by {
                if k < i {
                    assert(before[by_location@[k] as int] == all[k]);
                    assert(texts(names@)[by_location@[k] as int] == before[by_location@[k] as int]);
                }
            }
        }
    }
    let ghost before = texts(names@);
    let unknown: usize = enter_name(&mut names, &mut keys, "(unknown)");
    let r = NameTable { names, by_location, unknown };
    proof {
        let full = all.push("(unknown)"@);
        assert(full.drop_last() =~= all);
        assert(all.take(all.len() as int) =~= all);
        lemma_first_seen(full);
        assert forall|i: int| #![trigger r.by_location@[i]] 0 <= i < p@.location.len() implies r.by_location@[i]
            < r.names@.len() && r.table()[r.by_location@[i] as int] == location_name(p@, p@.location[i]) by {
            assert(before[r.by_location@[i] as int] == all[i]);
            assert(r.table()[r.by_location@[i] as int] == before[r.by_location@[i] as int]);
        }
    }
    r
}

/// The names on the stack of a sample.
fn stack_names(index: &ProfileIndex, t: &NameTable, sample: &Sample) -> (r: Vec<usize>)
    requires
        index.wf(),
        t.is_of(index.of()@),
    ensures
        forall|j: int| 0 <= j < r@.len() ==> (#[trigger] r@[j]) < t.names@.len(),
        spelled(r@, t.table()) == known_names(index.of()@, sample@.location_id),
{
    let ghost p = index.of()@;
    let ghost ids = sample@.location_id;
    let mut r: Vec<usize> = Vec::new();
    assert(spelled(r@, t.table()) =~= known_names(p, ids.take(0)));
    for i in 0..sample.location_id.len()
        invariant
            index.wf(),
            t.is_of(p),
            p == index.of()@,
            ids == sample@.location_id,
            forall|j: int| 0 <= j < r@.len() ==> (#[trigger] r@[j]) < t.names@.len(),
            spelled(r@, t.table()) == known_names(p, ids.take(i as int)),
    {
        let ghost before = r@;
        proof {
            assert(ids.take(i + 1).drop_last() =~= ids.take(i as int));
            assert(ids.take(i + 1).last() == ids[i as int]);
        }
        if let Some(k) = index.location(sample.location_id[i]) {
            r.push(t.by_location[k]);
            assert(spelled(r@, t.table()) =~= spelled(before, t.table()).push(location_name(p, p.location[k as int])));
        }
    }
    assert(ids.take(ids.len() as int) =~= ids);
    r
}

/// The number of the name that the sample's own value falls to.
fn pick_leaf<D: NameTest>(
    index: &ProfileIndex,
    t: &NameTable,
    sample: &Sample,
    names: &Vec<usize>,
    rule: LeafRule,
    drop_flags: &Vec<bool>,
    dropped: &D,
) -> (r: usize)
    requires
        index.wf(),
        t.is_of(index.of()@),
        forall|j: int| 0 <= j < names@.len() ==> (#[trigger] names@[j]) < t.names@.len(),
        spelled(names@, t.table()) == known_names(index.of()@, sample@.location_id),
        drop_flags@.len() == t.table().len(),
        forall|i: int| 0 <= i < t.table().len() ==> (#[trigger] drop_flags@[i]) == dropped.holds(t.table()[i]),
    ensures
        r < t.names@.len(),
        t.table()[r as int] == leaf_name(index.of()@, sample@.location_id, rule, *dropped),
{
    let ghost p = index.of()@;
    match rule {
        LeafRule::Innermost => {
            if sample.location_id.len() > 0 {
                if let Some(k) = index.location(sample.location_id[0]) {
                    return t.by_location[k];
                }
            }
            t.unknown
        },
        LeafRule::InnermostShown => {
            let ghost all = spelled(names@, t.table());
            assert(all.skip(0) =~= all);
            for j in 0..names.len()
                invariant
                    t.is_of(p),
                    p == index.of()@,
                    rule == LeafRule::InnermostShown,
                    all == spelled(names@, t.table()),
                    all == known_names(p, sample@.location_id),
                    forall|j: int| 0 <= j < names@.len() ==> (#[trigger] names@[j]) < t.names@.len(),
                    drop_flags@.len() == t.table().len(),
                    forall|i: int| 0 <= i < t.table().len() ==> (#[trigger] drop_flags@[i]) == dropped.holds(
                        t.table()[i],
                    ),
                    first_shown(all, *dropped) == first_shown(all.skip(j as int), *dropped),
            {
                let i: usize = names[j];
                assert(all.skip(j as int)[0] == t.table()[i as int]);
                if !drop_flags[i] {
                    return i;
                }
                assert(all.skip(j as int).drop_first() =~= all.skip(j + 1));
            }
            t.unknown
        },
    }
}

/// Which of the names a test holds of.
fn flags_of<T: NameTest>(names: &Vec<String>, test: &T) -> (r: Vec<bool>)
    ensures
        r@.len() == names@.len(),
        forall|i: int| 0 <= i < names@.len() ==> (#[trigger] r@[i]) == test.holds(texts(names@)[i]),
{
    let mut r: Vec<bool> = Vec::new();
    for i in 0..names.len()
        invariant
            r@.len() == i,
            forall|k: int| 0 <= k < i ==> (#[trigger] r@[k]) == test.holds(texts(names@)[k]),
    {
        let b = test.test(names[i].as_str());
        r.push(b);
    }
    r
}

fn value_of(values: &Vec<i64>, idx: usize) -> (r: i64)
    ensures
        r == value_at(values@, idx),
{
    if idx < values.len() {
        values[idx]
    } else {
        0
    }
}

fn no_sums(n: usize) -> (r: Vec<Sums>)
    ensures
        r@.len() == n,
        forall|i: int| 0 <= i < n ==> (#[trigger] r@[i]) == (Sums {
            self_v: 0,
            cum: 0,
            mem_cum: 0,
            self_v2: 0,
            occurs: false,
            stamp: 0,
        }),
{
    let mut r: Vec<Sums> = Vec::new();
    for i in 0..n
        invariant
            r@.len() == i,
            forall|k: int| 0 <= k < i ==> (#[trigger] r@[k]) == (Sums {
                self_v: 0,
                cum: 0,
                mem_cum: 0,
                self_v2: 0,
                occurs: false,
                stamp: 0,
            }),
    {
        r.push(Sums { self_v: 0, cum: 0, mem_cum: 0, self_v2: 0, occurs: false, stamp: 0 });
    }
    r
}

/// The sums of the names that occur.
fn list_stats<M: NameTest>(
    t: &NameTable,
    acc: &Vec<Sums>,
    flags: &Vec<bool>,
    mem: &M,
    h: Ghost<Seq<Hit>>,
) -> (r: Vec<FuncStats>)
    requires
        all_match(acc@, h@, t.table(), *mem),
        sums_fit(h@, *mem),
        flags@.len() == t.table().len(),
        forall|i: int| 0 <= i < t.table().len() ==> (#[trigger] flags@[i]) == mem.holds(t.table()[i]),
    ensures
        stats_views(r@) == stats_in(h@, t.table(), *mem),
{
    let ghost table = t.table();
    let mut r: Vec<FuncStats> = Vec::new();
    assert(stats_views(r@) =~= stats_in(h@, table.take(0), *mem));
    for i in 0..t.names.len()
        invariant
            table == t.table(),
            all_match(acc@, h@, table, *mem),
            sums_fit(h@, *mem),
            flags@.len() == table.len(),
            forall|i: int| 0 <= i < table.len() ==> (#[trigger] flags@[i]) == mem.holds(table[i]),
            stats_views(r@) == stats_in(h@, table.take(i as int), *mem),
    {
        let ghost before = r@;
        let ghost name = table[i as int];
        proof {
            assert(table.take(i + 1).drop_last() =~= table.take(i as int));
            assert(table.take(i + 1).last() == name);
            assert(sums_match(acc@[i as int], h@, name, *mem));
            assert(name_fits(h@, name, *mem));
        }
        if acc[i].occurs {
            let s = FuncStats {
                name: t.names[i].clone(),
                self_v: acc[i].self_v,
                cum: acc[i].cum,
                mem_cum: acc[i].mem_cum,
                self_v2: acc[i].self_v2,
                is_mem: flags[i],
            };
            r.push(s);
            assert(s@ =~= stats_of(h@, name, *mem));
            assert(stats_views(r@) =~= stats_views(before).push(s@));
        }
    }
    assert(table.take(table.len() as int) =~= table);
    r
}

/// Totals a profile and what falls to its functions. `None` stands for sums that go beyond
/// 64 bits.
pub fn summarize<M: NameTest, D: NameTest>(p: &Profile, reading: Reading, mem: &M, dropped: &D) -> (r: Option<Rollup>)
    ensures
        match r {
            Some(s) => summary_fits(hits(p@, reading, *mem, *dropped), *mem) && s@ == rollup(
                p@,
                reading,
                *mem,
                *dropped,
            ),
            None => !summary_fits(hits(p@, reading, *mem, *dropped), *mem),
        },
{
    let ghost all = hits(p@, reading, *mem, *dropped);
    let index = ProfileIndex::new(p);
    let t = resolve_top_lines(&index);
    let flags = flags_of(&t.names, mem);
    let drop_flags = flags_of(&t.names, dropped);
    let mut acc = no_sums(t.names.len());
    let mut total: i64 = 0;
    let mut total2: i64 = 0;
    let mut mem_mgmt_total: i64 = 0;
    proof {
        assert(all.take(0) =~= Seq::empty());
        assert(all_match(acc@, all.take(0), t.table(), *mem));
        assert forall|name: Seq<char>| name_fits(all.take(0), name, *mem) by {}
        assert(sums_fit(all.take(0), *mem));
    }
    for k in 0..p.sample.len()
        invariant
            index.wf(),
            *p == index.of(),
            t.is_of(p@),
            all == hits(p@, reading, *mem, *dropped),
            flags@.len() == t.table().len(),
            forall|i: int| 0 <= i < t.table().len() ==> (#[trigger] flags@[i]) == mem.holds(t.table()[i]),
            drop_flags@.len() == t.table().len(),
            forall|i: int| 0 <= i < t.table().len() ==> (#[trigger] drop_flags@[i]) == dropped.holds(t.table()[i]),
            total == total_value(all.take(k as int)),
            total2 == total_second(all.take(k as int)),
            mem_mgmt_total == total_mem(all.take(k as int)),
            all_match(acc@, all.take(k as int), t.table(), *mem),
            forall|i: int| 0 <= i < t.table().len() ==> (#[trigger] acc@[i]).stamp <= k,
            forall|j: int| 0 <= j <= k ==> sums_fit(#[trigger] all.take(j), *mem),
    {
        let sample = &p.sample[k];
        let ghost x = all[k as int];
        let ghost h = all.take(k as int);
        proof {
            assert(p@.sample[k as int] == sample@);
            assert(x == hit(p@, reading, *mem, *dropped, sample@));
            assert(all.take(k + 1) =~= h.push(x));
            assert(h.push(x).drop_last() =~= h);
            assert(sums_fit(h, *mem));
        }
        let v: i64 = value_of(&sample.value, reading.idx);
        let v2: i64 = match reading.secondary_idx {
            Some(i) => value_of(&sample.value, i),
            None => 0,
        };
        let names = stack_names(&index, &t, sample);
        let leaf: usize = pick_leaf(&index, &t, sample, &names, reading.leaf, &drop_flags, dropped);
        let leaf_is_mem: bool = !reading.is_heap && flags[leaf];
        total = match total.checked_add(v) {
            Some(n) => n,
            None => {
                assert(!sums_fit(all.take(k + 1), *mem));
                return None;
            },
        };
        total2 = match total2.checked_add(v2) {
            Some(n) => n,
            None => {
                assert(!sums_fit(all.take(k + 1), *mem));
                return None;
            },
        };
        if leaf_is_mem {
            mem_mgmt_total = match mem_mgmt_total.checked_add(v) {
                Some(n) => n,
                None => {
                    assert(!sums_fit(all.take(k + 1), *mem));
                    return None;
                },
            };
        }
        if !credit_own(&mut acc, leaf, v, v2, mem, Ghost(t.table()), Ghost(h), Ghost(x)) {
            assert(!sums_fit(all.take(k + 1), *mem));
            return None;
        }
        if !credit_stack(
            &mut acc,
            &names,
            v,
            leaf_is_mem,
            &flags,
            k + 1,
            mem,
            Ghost(t.table()),
            Ghost(h),
            Ghost(x),
        ) {
            assert(!sums_fit(all.take(k + 1), *mem));
            return None;
        }
        proof {
            assert forall|name: Seq<char>| name_fits(h.push(x), name, *mem) by {
                lemma_absent_fits(acc@, h, x, t.table(), *mem, name);
            }
            assert(sums_fit(all.take(k + 1), *mem));
        }
    }
    assert(all.take(all.len() as int) =~= all);
    let stats = list_stats(&t, &acc, &flags, mem, Ghost(all));
    let r = Rollup { total, total2, mem_mgmt_total, num_samples: p.sample.len(), stats };
    assert(r@ =~= rollup(p@, reading, *mem, *dropped));
    Some(r)
}

/// The sums of a name fit: those of a listed name are at hand, and those of another name
/// do not change.
proof fn lemma_absent_fits<M: NameTest>(
    acc: Seq<Sums>,
    h: Seq<Hit>,
    x: Hit,
    table: Seq<Seq<char>>,
    mem: M,
    name: Seq<char>,
)
    requires
        all_match(acc, h.push(x), table, mem),
        table.contains(x.leaf),
        forall|j: int| 0 <= j < x.names.len() ==> table.contains(#[trigger] x.names[j]),
        name_fits(h, name, mem),
    ensures
        name_fits(h.push(x), name, mem),
{
    let h1 = h.push(x);
    assert(h1.drop_last() =~= h);
    if table.contains(name) {
        let i = choose|i: int| 0 <= i < table.len() && table[i] == name;
        assert(sums_match(acc[i], h1, table[i], mem));
    } else {
        if x.names.contains(name) {
            let j = choose|j: int| 0 <= j < x.names.len() && x.names[j] == name;
            assert(table.contains(x.names[j]));
        }
        crate::tally::lemma_absent(x.names, Seq::new(x.names.len(), |i: int| 0i64), name);
    }
}

/// A profile's summary.
#[derive(Debug)]
pub struct Summary {
    pub rollup: Rollup,
    pub axis: ValueAxis,
}

/// How a summary reads the samples of a profile.
pub open spec fn summary_reading(p: ProfileView) -> Reading {
    let axis = axis_of(p);
    Reading {
        idx: axis.idx,
        secondary_idx: axis.secondary_idx,
        is_heap: axis.is_heap,
        leaf: LeafRule::InnermostShown,
    }
}

/// The text of the frames to pass over, empty where there is none.
pub open spec fn drop_text(p: ProfileView) -> Seq<char> {
    if p.drop_frames > 0 {
        text_at(p.string_table, p.drop_frames)
    } else {
        Seq::empty()
    }
}

/// Whether a test holds of the frames that the profile says to pass over. A text that is
/// no regular expression counts as none.
pub open spec fn is_drop_test(p: ProfileView, test: OptionalPattern) -> bool {
    match test.pattern {
        Some(x) => drop_text(p).len() > 0 && regex_valid(drop_text(p)) && x.text() == drop_text(p),
        None => drop_text(p).len() == 0 || !regex_valid(drop_text(p)),
    }
}

/// The frames that the profile says to pass over.
fn drop_test(p: &Profile) -> (r: OptionalPattern)
    ensures
        is_drop_test(p@, r),
{
    if p.drop_frames > 0 {
        let pat = string_at(p, p.drop_frames);
        if pat.is_empty() {
            OptionalPattern { pattern: None }
        } else {
            OptionalPattern { pattern: Pattern::compile(pat) }
        }
    } else {
        OptionalPattern { pattern: None }
    }
}

/// Summarizes a profile. `None` stands for sums that go beyond 64 bits.
pub fn compute_summary(p: &Profile, mem_mgmt: &Pattern) -> (r: Option<Summary>)
    ensures
        exists|dropped: OptionalPattern| #[trigger]
            is_drop_test(p@, dropped) && match r {
                Some(s) => {
                    &&& summary_fits(hits(p@, summary_reading(p@), *mem_mgmt, dropped), *mem_mgmt)
                    &&& s.axis == axis_of(p@)
                    &&& s.rollup@ == rollup(p@, summary_reading(p@), *mem_mgmt, dropped)
                },
                None => !summary_fits(hits(p@, summary_reading(p@), *mem_mgmt, dropped), *mem_mgmt),
            },
{
    let axis = value_axis(p);
    let dropped = drop_test(p);
    let reading = Reading {
        idx: axis.idx,
        secondary_idx: axis.secondary_idx,
        is_heap: axis.is_heap,
        leaf: LeafRule::InnermostShown,
    };
    assert(is_drop_test(p@, dropped));
    match summarize(p, reading, mem_mgmt, &dropped) {
        Some(rollup) => Some(Summary { rollup, axis }),
        None => None,
    }
}

proof fn lemma_self_total(h: Seq<Hit>, table: Seq<Seq<char>>)
    requires
        table.no_duplicates(),
        forall|k: int| 0 <= k < h.len() ==> table.contains((#[trigger] h[k]).leaf),
    ensures
        listed_self(h, table) == total_value(h),
        listed_second(h, table) == total_second(h),
    decreases h.len(),
{
    if h.len() > 0 {
        let front = h.drop_last();
        assert forall|k: int| 0 <= k < front.len() implies table.contains((#[trigger] front[k]).leaf) by {
            assert(front[k] == h[k]);
        }
        lemma_self_total(front, table);
        assert(table.contains(h[h.len() - 1].leaf));
        lemma_listed_step(h, table);
    } else {
        lemma_listed_empty(h, table);
    }
}

proof fn lemma_listed_empty(h: Seq<Hit>, table: Seq<Seq<char>>)
    requires
        h.len() == 0,
    ensures
        listed_self(h, table) == 0,
        listed_second(h, table) == 0,
    decreases table.len(),
{
    if table.len() > 0 {
        lemma_listed_empty(h, table.drop_last());
    }
}

proof fn lemma_listed_step(h: Seq<Hit>, table: Seq<Seq<char>>)
    requires
        h.len() > 0,
        table.no_duplicates(),
    ensures
        listed_self(h, table) == listed_self(h.drop_last(), table) + if table.contains(h.last().leaf) {
            h.last().value as int
        } else {
            0
        },
        listed_second(h, table) == listed_second(h.drop_last(), table) + if table.contains(h.last().leaf) {
            h.last().second as int
        } else {
            0
        },
    decreases table.len(),
{
    if table.len() > 0 {
        let front = table.drop_last();
        let leaf = h.last().leaf;
        lemma_listed_step(h, front);
        if table.last() == leaf {
            assert(table[table.len() - 1] == leaf);
            if front.contains(leaf) {
                let i = choose|i: int| 0 <= i < front.len() && front[i] == leaf;
                assert(table[i] == leaf);
            }
        } else if table.contains(leaf) {
            let i = choose|i: int| 0 <= i < table.len() && table[i] == leaf;
            assert(front[i] == leaf);
        } else if front.contains(leaf) {
            let i = choose|i: int| 0 <= i < front.len() && front[i] == leaf;
            assert(table[i] == leaf);
        }
    }
}

/// The sum of the own values of names.
pub open spec fn listed_self(h: Seq<Hit>, table: Seq<Seq<char>>) -> int
    decreases table.len(),
{
    if table.len() == 0 {
        0
    } else {
        listed_self(h, table.drop_last()) + self_value(h, table.last())
    }
}

/// The same of the second axis.
pub open spec fn listed_second(h: Seq<Hit>, table: Seq<Seq<char>>) -> int
    decreases table.len(),
{
    if table.len() == 0 {
        0
    } else {
        listed_second(h, table.drop_last()) + self_second(h, table.last())
    }
}

/// The sum of the own values of the listed functions.
pub open spec fn self_sum(stats: Seq<FuncStatsView>) -> int
    decreases stats.len(),
{
    if stats.len() == 0 {
        0
    } else {
        self_sum(stats.drop_last()) + stats.last().self_v
    }
}

/// The same of the second axis.
pub open spec fn second_sum(stats: Seq<FuncStatsView>) -> int
    decreases stats.len(),
{
    if stats.len() == 0 {
        0
    } else {
        second_sum(stats.drop_last()) + stats.last().self_v2
    }
}

proof fn lemma_not_occurring(h: Seq<Hit>, name: Seq<char>)
    requires
        !occurs(h, name),
    ensures
        self_value(h, name) == 0,
        self_second(h, name) == 0,
    decreases h.len(),
{
    if h.len() > 0 {
        lemma_not_occurring(h.drop_last(), name);
    }
}

proof fn lemma_self_sum<M: NameTest>(h: Seq<Hit>, names: Seq<Seq<char>>, mem: M)
    requires
        sums_fit(h, mem),
    ensures
        self_sum(stats_in(h, names, mem)) == listed_self(h, names),
        second_sum(stats_in(h, names, mem)) == listed_second(h, names),
    decreases names.len(),
{
    if names.len() > 0 {
        lemma_self_sum(h, names.drop_last(), mem);
        let name = names.last();
        let front = stats_in(h, names.drop_last(), mem);
        assert(name_fits(h, name, mem));
        if occurs(h, name) {
            assert(front.push(stats_of(h, name, mem)).drop_last() =~= front);
        } else {
            lemma_not_occurring(h, name);
        }
    }
}

proof fn lemma_known_listed(p: ProfileView, ids: Seq<u64>)
    ensures
        forall|j: int| 0 <= j < known_names(p, ids).len() ==> location_names(p).contains(
            #[trigger] known_names(p, ids)[j],
        ),
    decreases ids.len(),
{
    if ids.len() > 0 {
        lemma_known_listed(p, ids.drop_last());
        lemma_location_with(p.location, ids.last());
        if let Some(i) = location_with(p.location, ids.last()) {
            assert(location_names(p)[i] == location_name(p, p.location[i]));
        }
        let all = known_names(p, ids);
        let front = known_names(p, ids.drop_last());
        assert forall|j: int| 0 <= j < all.len() implies location_names(p).contains(#[trigger] all[j]) by {
            if j < front.len() {
                assert(all[j] == front[j]);
            }
        }
    }
}

proof fn lemma_shown_listed<D: NameTest>(names: Seq<Seq<char>>, dropped: D)
    ensures
        names.contains(first_shown(names, dropped)) || first_shown(names, dropped) == "(unknown)"@,
    decreases names.len(),
{
    if names.len() > 0 {
        if dropped.holds(names[0]) {
            lemma_shown_listed(names.drop_first(), dropped);
            if names.drop_first().contains(first_shown(names, dropped)) {
                let i = names.drop_first().index_of(first_shown(names, dropped));
                assert(names[i + 1] == first_shown(names, dropped));
            }
        } else {
            assert(names[0] == first_shown(names, dropped));
        }
    }
}

/// Each sample's value falls to exactly one listed function: the functions' own values add
/// up to the total, and so do those of the second axis.
pub proof fn law_self_values_add_up<M: NameTest, D: NameTest>(p: ProfileView, r: Reading, mem: M, dropped: D)
    requires
        summary_fits(hits(p, r, mem, dropped), mem),
    ensures
        self_sum(rollup(p, r, mem, dropped).stats) == rollup(p, r, mem, dropped).total,
        second_sum(rollup(p, r, mem, dropped).stats) == rollup(p, r, mem, dropped).total2,
{
    let h = hits(p, r, mem, dropped);
    let table = all_names(p);
    let full = location_names(p).push("(unknown)"@);
    assert(h.take(h.len() as int) =~= h);
    assert(sums_fit(h, mem));
    lemma_first_seen(full);
    assert(full[full.len() - 1] == "(unknown)"@);
    assert forall|k: int| 0 <= k < h.len() implies table.contains((#[trigger] h[k]).leaf) by {
        let ids = p.sample[k].location_id;
        let leaf = h[k].leaf;
        lemma_known_listed(p, ids);
        lemma_shown_listed(known_names(p, ids), dropped);
        if leaf != "(unknown)"@ {
            match r.leaf {
                LeafRule::Innermost => {
                    let i = location_with(p.location, ids[0]).unwrap();
                    lemma_location_with(p.location, ids[0]);
                    assert(full[i] == leaf);
                },
                LeafRule::InnermostShown => {
                    let j = known_names(p, ids).index_of(leaf);
                    assert(location_names(p).contains(known_names(p, ids)[j]));
                    let i = location_names(p).index_of(leaf);
                    assert(full[i] == leaf);
                },
            }
        }
        assert(full.contains(leaf));
    }
    lemma_self_total(h, table);
    lemma_self_sum(h, table, mem);
}

/// A frame that is to be passed over is never the one that a sample's own value falls to.
pub proof fn law_dropped_is_no_leaf<D: NameTest>(p: ProfileView, ids: Seq<u64>, dropped: D)
    ensures
        ({
            let leaf = leaf_name(p, ids, LeafRule::InnermostShown, dropped);
            leaf == "(unknown)"@ || !dropped.holds(leaf)
        }),
{
    lemma_shown_not_dropped(known_names(p, ids), dropped);
}

proof fn lemma_shown_not_dropped<D: NameTest>(names: Seq<Seq<char>>, dropped: D)
    ensures
        first_shown(names, dropped) == "(unknown)"@ || !dropped.holds(first_shown(names, dropped)),
    decreases names.len(),
{
    if names.len() > 0 && dropped.holds(names[0]) {
        lemma_shown_not_dropped(names.drop_first(), dropped);
    }
}

} // verus!

//! Which samples each value of a summary adds up.
use vstd::prelude::*;
use crate::axis::axis_of;
use crate::pattern::NameTest;
use crate::proto::{text_at, LocationView, PprofFunction, ProfileView, SampleView};
use crate::resolve::{function_with, lemma_location_with, location_with};
use crate::summary::{
    all_names, cum_value, drop_text, first_shown, hit, hits, known_names, leaf_name, location_name,
    location_names, mem_value, occurs, rollup, self_second, self_value, stats_in, stats_of, summary_fits,
    summary_reading, sums_fit, total_mem, total_second, total_value, Hit, LeafRule, Reading,
};
use crate::tally::{count_of, first_seen, lemma_first_seen};

verus! {

/// Whether a location is the one with this id: no later one has it.
pub open spec fn is_location(p: ProfileView, id: u64, l: int) -> bool {
    &&& 0 <= l < p.location.len()
    &&& p.location[l].id == id
    &&& forall|m: int| l < m < p.location.len() ==> (#[trigger] p.location[m]).id != id
}

/// Whether a function is the one with this id: no later one has it.
pub open spec fn is_function(p: ProfileView, id: u64, k: int) -> bool {
    &&& 0 <= k < p.function.len()
    &&& p.function[k].id == id
    &&& forall|m: int| k < m < p.function.len() ==> (#[trigger] p.function[m]).id != id
}

/// Whether a location goes by a name: that of the function of its first line. It is
/// `(unknown)` where the location has no line, or no function.
pub open spec fn goes_by(p: ProfileView, loc: LocationView, name: Seq<char>) -> bool {
    if loc.line.len() > 0 && exists|k: int| is_function(p, loc.line[0].function_id, k) {
        exists|k: int|
            #[trigger] is_function(p, loc.line[0].function_id, k) && name == text_at(
                p.string_table,
                p.function[k].name,
            )
    } else {
        name == "(unknown)"@
    }
}

/// Whether there is a location with this id, which goes by the name.
pub open spec fn is_called(p: ProfileView, id: u64, name: Seq<char>) -> bool {
    exists|l: int| #[trigger] is_location(p, id, l) && goes_by(p, p.location[l], name)
}

/// Whether a name is on a stack.
pub open spec fn is_on_stack(p: ProfileView, ids: Seq<u64>, name: Seq<char>) -> bool {
    exists|i: int| 0 <= i < ids.len() && is_called(p, #[trigger] ids[i], name)
}

/// How often a name is on a stack.
pub open spec fn times_on_stack(p: ProfileView, ids: Seq<u64>, name: Seq<char>) -> int
    decreases ids.len(),
{
    if ids.len() == 0 {
        0
    } else if is_called(p, ids[0], name) {
        times_on_stack(p, ids.drop_first(), name) + 1
    } else {
        times_on_stack(p, ids.drop_first(), name)
    }
}

/// Whether a frame is passed over: it has no location, or one whose name is dropped.
pub open spec fn is_passed<D: NameTest>(p: ProfileView, id: u64, dropped: D) -> bool {
    forall|n: Seq<char>| #[trigger] is_called(p, id, n) ==> dropped.holds(n)
}

/// Whether a sample's own value falls to a name. By the first rule that is the name of the
/// first location on the stack, by the second the first one that is not passed over. It falls
/// to `(unknown)` where there is none.
pub open spec fn falls_to<D: NameTest>(p: ProfileView, ids: Seq<u64>, rule: LeafRule, dropped: D, name: Seq<char>) -> bool {
    match rule {
        LeafRule::Innermost => if ids.len() > 0 && exists|l: int| is_location(p, ids[0], l) {
            is_called(p, ids[0], name)
        } else {
            name == "(unknown)"@
        },
        LeafRule::InnermostShown => if forall|i: int| 0 <= i < ids.len() ==> is_passed(p, #[trigger] ids[i], dropped) {
            name == "(unknown)"@
        } else {
            exists|i: int|
                {
                    &&& 0 <= i < ids.len()
                    &&& is_called(p, #[trigger] ids[i], name)
                    &&& !dropped.holds(name)
                    &&& forall|j: int| 0 <= j < i ==> is_passed(p, #[trigger] ids[j], dropped)
                }
        },
    }
}

/// What a function gives over samples, together.
pub open spec fn summed(s: Seq<SampleView>, f: spec_fn(SampleView) -> int) -> int
    decreases s.len(),
{
    if s.len() == 0 {
        0
    } else {
        summed(s.drop_last(), f) + f(s.last())
    }
}

/// The value of a sample at an index, and 0 where it has none.
pub open spec fn value_of(s: SampleView, idx: usize) -> int {
    if s.value.len() > idx {
        s.value[idx as int] as int
    } else {
        0
    }
}

/// The second value of a sample, and 0 where there is no second axis.
pub open spec fn second_of(s: SampleView, r: Reading) -> int {
    match r.secondary_idx {
        Some(i) => value_of(s, i),
        None => 0,
    }
}

/// Whether a sample is spent on memory management: its own value falls to a name of that
/// kind, and the profile is not one of allocations.
pub open spec fn is_memory<M: NameTest, D: NameTest>(p: ProfileView, r: Reading, mem: M, dropped: D, s: SampleView) -> bool {
    !r.is_heap && exists|n: Seq<char>| #[trigger] falls_to(p, s.location_id, r.leaf, dropped, n) && mem.holds(n)
}

proof fn lemma_location(p: ProfileView, locations: Seq<LocationView>, id: u64)
    ensures
        match location_with(locations, id) {
            Some(l) => 0 <= l < locations.len() && locations[l].id == id && forall|m: int|
                l < m < locations.len() ==> (#[trigger] locations[m]).id != id,
            None => forall|m: int| 0 <= m < locations.len() ==> (#[trigger] locations[m]).id != id,
        },
    decreases locations.len(),
{
    if locations.len() > 0 {
        let front = locations.drop_last();
        lemma_location(p, front, id);
        if locations.last().id != id {
            assert forall|m: int|
                0 <= m < locations.len() && (location_with(locations, id) is Some ==> location_with(
                    locations,
                    id,
                ).unwrap() < m) implies (#[trigger] locations[m]).id != id by {
                if m < front.len() {
                    assert(front[m] == locations[m]);
                }
            }
        }
    }
}

proof fn lemma_function(p: ProfileView, functions: Seq<PprofFunction>, id: u64)
    ensures
        match function_with(functions, id) {
            Some(l) => 0 <= l < functions.len() && functions[l].id == id && forall|m: int|
                l < m < functions.len() ==> (#[trigger] functions[m]).id != id,
            None => forall|m: int| 0 <= m < functions.len() ==> (#[trigger] functions[m]).id != id,
        },
    decreases functions.len(),
{
    if functions.len() > 0 {
        let front = functions.drop_last();
        lemma_function(p, front, id);
        if functions.last().id != id {
            assert forall|m: int|
                0 <= m < functions.len() && (function_with(functions, id) is Some ==> function_with(
                    functions,
                    id,
                ).unwrap() < m) implies (#[trigger] functions[m]).id != id by {
                if m < front.len() {
                    assert(front[m] == functions[m]);
                }
            }
        }
    }
}

pub(crate) proof fn lemma_location_found(p: ProfileView, id: u64)
    ensures
        match location_with(p.location, id) {
            Some(l) => is_location(p, id, l) && forall|j: int| #[trigger] is_location(p, id, j) ==> j == l,
            None => forall|j: int| !#[trigger] is_location(p, id, j),
        },
{
    lemma_location(p, p.location, id);
    if let Some(l) = location_with(p.location, id) {
        assert forall|j: int| #[trigger] is_location(p, id, j) implies j == l by {
            assert(p.location[j].id == id);
        }
    }
}

pub(crate) proof fn lemma_function_found(p: ProfileView, id: u64)
    ensures
        match function_with(p.function, id) {
            Some(k) => is_function(p, id, k) && forall|j: int| #[trigger] is_function(p, id, j) ==> j == k,
            None => forall|j: int| !#[trigger] is_function(p, id, j),
        },
{
    lemma_function(p, p.function, id);
    if let Some(k) = function_with(p.function, id) {
        assert forall|j: int| #[trigger] is_function(p, id, j) implies j == k by {
            assert(p.function[j].id == id);
        }
    }
}

proof fn lemma_goes_by(p: ProfileView, loc: LocationView, name: Seq<char>)
    ensures
        goes_by(p, loc, name) <==> name == location_name(p, loc),
{
    if loc.line.len() > 0 {
        let id = loc.line[0].function_id;
        lemma_function(p, p.function, id);
        match function_with(p.function, id) {
            Some(k) => {
                assert(is_function(p, id, k));
                assert forall|j: int| is_function(p, id, j) implies j == k by {
                    assert(p.function[j].id == id);
                }
            },
            None => {
                assert forall|j: int| !is_function(p, id, j) by {}
            },
        }
    }
}

proof fn lemma_called(p: ProfileView, id: u64, name: Seq<char>)
    ensures
        is_called(p, id, name) <==> (location_with(p.location, id) matches Some(l) && name == location_name(
            p,
            p.location[l],
        )),
        (exists|l: int| is_location(p, id, l)) <==> location_with(p.location, id) is Some,
{
    lemma_location(p, p.location, id);
    match location_with(p.location, id) {
        Some(l) => {
            assert(is_location(p, id, l));
            assert forall|j: int| is_location(p, id, j) implies j == l by {
                assert(p.location[j].id == id);
            }
            lemma_goes_by(p, p.location[l], name);
        },
        None => {
            assert forall|j: int| !is_location(p, id, j) by {}
        },
    }
}

spec fn name_here(p: ProfileView, id: u64) -> Seq<Seq<char>> {
    match location_with(p.location, id) {
        Some(l) => seq![location_name(p, p.location[l])],
        None => Seq::empty(),
    }
}

proof fn lemma_front(p: ProfileView, ids: Seq<u64>)
    requires
        ids.len() > 0,
    ensures
        known_names(p, ids) == name_here(p, ids[0]) + known_names(p, ids.drop_first()),
    decreases ids.len(),
{
    if ids.len() == 1 {
        assert(ids.drop_first() =~= Seq::empty());
        assert(ids.drop_last() =~= Seq::empty());
        assert(known_names(p, ids) =~= name_here(p, ids[0]) + known_names(p, ids.drop_first()));
    } else {
        let front = ids.drop_last();
        lemma_front(p, front);
        assert(front.drop_first() =~= ids.drop_first().drop_last());
        assert(front[0] == ids[0]);
        assert(ids.drop_first().last() == ids.last());
        assert(known_names(p, ids) =~= name_here(p, ids[0]) + known_names(p, ids.drop_first()));
    }
}

proof fn lemma_count_split<K>(a: Seq<K>, b: Seq<K>, k: K)
    ensures
        count_of(a + b, k) == count_of(a, k) + count_of(b, k),
    decreases b.len(),
{
    if b.len() == 0 {
        assert(a + b =~= a);
    } else {
        assert((a + b).drop_last() =~= a + b.drop_last());
        lemma_count_split(a, b.drop_last(), k);
    }
}

proof fn lemma_on_stack(p: ProfileView, ids: Seq<u64>, name: Seq<char>)
    ensures
        known_names(p, ids).contains(name) <==> is_on_stack(p, ids, name),
        count_of(known_names(p, ids), name) == times_on_stack(p, ids, name),
    decreases ids.len(),
{
    if ids.len() > 0 {
        let rest = ids.drop_first();
        let here = name_here(p, ids[0]);
        lemma_front(p, ids);
        lemma_on_stack(p, rest, name);
        lemma_called(p, ids[0], name);
        lemma_count_split(here, known_names(p, rest), name);
        if here.len() > 0 {
            assert(here.drop_last() =~= Seq::empty());
            assert(count_of(here.drop_last(), name) == 0);
        }
        let all = known_names(p, ids);
        if all.contains(name) {
            let j = all.index_of(name);
            assert(all[j] == name);
            if j < here.len() {
                assert(is_called(p, ids[0], name));
            } else {
                assert(known_names(p, rest)[j - here.len()] == name);
                let i = choose|i: int| 0 <= i < rest.len() && is_called(p, #[trigger] rest[i], name);
                assert(ids[i + 1] == rest[i]);
            }
        }
        if is_on_stack(p, ids, name) {
            let i = choose|i: int| 0 <= i < ids.len() && is_called(p, #[trigger] ids[i], name);
            if i == 0 {
                assert(all[0] == name);
            } else {
                assert(rest[i - 1] == ids[i]);
                let j = known_names(p, rest).index_of(name);
                assert(known_names(p, rest)[j] == name);
                assert(all[here.len() + j] == name);
            }
        }
    }
}

proof fn lemma_shown<D: NameTest>(p: ProfileView, ids: Seq<u64>, dropped: D, name: Seq<char>)
    ensures
        first_shown(known_names(p, ids), dropped) == name <==> falls_to(
            p,
            ids,
            LeafRule::InnermostShown,
            dropped,
            name,
        ),
    decreases ids.len(),
{
    let rule = LeafRule::InnermostShown;
    if ids.len() > 0 {
        let rest = ids.drop_first();
        let here = name_here(p, ids[0]);
        lemma_front(p, ids);
        lemma_shown(p, rest, dropped, name);
        assert forall|n: Seq<char>| #[trigger] is_called(p, ids[0], n) == (here.len() > 0 && here[0] == n) by {
            lemma_called(p, ids[0], n);
        }
        let all = known_names(p, ids);
        if here.len() == 0 || dropped.holds(here[0]) {
            assert(is_passed(p, ids[0], dropped));
            if here.len() == 0 {
                assert(all =~= known_names(p, rest));
            } else {
                assert(all.drop_first() =~= known_names(p, rest));
            }
            assert(first_shown(all, dropped) == first_shown(known_names(p, rest), dropped));
            assert((forall|i: int| 0 <= i < ids.len() ==> is_passed(p, #[trigger] ids[i], dropped)) <==> (forall|i: int|
                0 <= i < rest.len() ==> is_passed(p, #[trigger] rest[i], dropped))) by {
                if forall|i: int| 0 <= i < ids.len() ==> is_passed(p, #[trigger] ids[i], dropped) {
                    assert forall|i: int| 0 <= i < rest.len() implies is_passed(p, #[trigger] rest[i], dropped) by {
                        assert(rest[i] == ids[i + 1]);
                    }
                }
                if forall|i: int| 0 <= i < rest.len() ==> is_passed(p, #[trigger] rest[i], dropped) {
                    assert forall|i: int| 0 <= i < ids.len() implies is_passed(p, #[trigger] ids[i], dropped) by {
                        if i > 0 {
                            assert(rest[i - 1] == ids[i]);
                        }
                    }
                }
            }
            if !(forall|i: int| 0 <= i < ids.len() ==> is_passed(p, #[trigger] ids[i], dropped)) {
                if falls_to(p, rest, rule, dropped, name) {
                    let i = choose|i: int|
                        {
                            &&& 0 <= i < rest.len()
                            &&& is_called(p, #[trigger] rest[i], name)
                            &&& !dropped.holds(name)
                            &&& forall|j: int| 0 <= j < i ==> is_passed(p, #[trigger] rest[j], dropped)
                        };
                    assert(ids[i + 1] == rest[i]);
                    assert forall|j: int| 0 <= j < i + 1 implies is_passed(p, #[trigger] ids[j], dropped) by {
                        if j > 0 {
                            assert(rest[j - 1] == ids[j]);
                        }
                    }
                }
                if falls_to(p, ids, rule, dropped, name) {
                    let i = choose|i: int|
                        {
                            &&& 0 <= i < ids.len()
                            &&& is_called(p, #[trigger] ids[i], name)
                            &&& !dropped.holds(name)
                            &&& forall|j: int| 0 <= j < i ==> is_passed(p, #[trigger] ids[j], dropped)
                        };
                    assert(i > 0);
                    assert(rest[i - 1] == ids[i]);
                    assert forall|j: int| 0 <= j < i - 1 implies is_passed(p, #[trigger] rest[j], dropped) by {
                        assert(rest[j] == ids[j + 1]);
                    }
                }
            }
        } else {
            assert(all[0] == here[0]);
            assert(is_called(p, ids[0], here[0]));
            assert(!is_passed(p, ids[0], dropped));
            if falls_to(p, ids, rule, dropped, name) {
                let i = choose|i: int|
                    {
                        &&& 0 <= i < ids.len()
                        &&& is_called(p, #[trigger] ids[i], name)
                        &&& !dropped.holds(name)
                        &&& forall|j: int| 0 <= j < i ==> is_passed(p, #[trigger] ids[j], dropped)
                    };
                assert(i == 0);
            }
        }
    }
}

proof fn lemma_falls<D: NameTest>(p: ProfileView, ids: Seq<u64>, rule: LeafRule, dropped: D, name: Seq<char>)
    ensures
        leaf_name(p, ids, rule, dropped) == name <==> falls_to(p, ids, rule, dropped, name),
{
    match rule {
        LeafRule::Innermost => {
            if ids.len() > 0 {
                lemma_called(p, ids[0], name);
            }
        },
        LeafRule::InnermostShown => {
            lemma_shown(p, ids, dropped, name);
        },
    }
}

/// What a sample adds to the own value of a name.
pub open spec fn own_part<D: NameTest>(p: ProfileView, r: Reading, dropped: D, name: Seq<char>) -> spec_fn(SampleView) -> int {
    |s: SampleView|
        if falls_to(p, s.location_id, r.leaf, dropped, name) {
            value_of(s, r.idx)
        } else {
            0
        }
}

/// The same of the second axis.
pub open spec fn own_second<D: NameTest>(p: ProfileView, r: Reading, dropped: D, name: Seq<char>) -> spec_fn(SampleView) -> int {
    |s: SampleView|
        if falls_to(p, s.location_id, r.leaf, dropped, name) {
            second_of(s, r)
        } else {
            0
        }
}

/// What a sample adds to the value of a name with all that it calls: its value once, however
/// often the name is on the stack.
pub open spec fn whole_part(p: ProfileView, r: Reading, name: Seq<char>) -> spec_fn(SampleView) -> int {
    |s: SampleView|
        if is_on_stack(p, s.location_id, name) {
            value_of(s, r.idx)
        } else {
            0
        }
}

/// What a sample adds to the memory management of a name: its value each time that the name
/// is on the stack.
pub open spec fn memory_part<M: NameTest, D: NameTest>(p: ProfileView, r: Reading, mem: M, dropped: D, name: Seq<char>) -> spec_fn(
    SampleView,
) -> int {
    |s: SampleView|
        if is_memory(p, r, mem, dropped, s) {
            times_on_stack(p, s.location_id, name) * value_of(s, r.idx)
        } else {
            0
        }
}

/// What a sample adds to the memory management of the profile.
pub open spec fn memory_total<M: NameTest, D: NameTest>(p: ProfileView, r: Reading, mem: M, dropped: D) -> spec_fn(
    SampleView,
) -> int {
    |s: SampleView|
        if is_memory(p, r, mem, dropped, s) {
            value_of(s, r.idx)
        } else {
            0
        }
}

/// Whether a name has anything to do with a sample.
pub open spec fn touches<D: NameTest>(p: ProfileView, r: Reading, dropped: D, s: SampleView, name: Seq<char>) -> bool {
    falls_to(p, s.location_id, r.leaf, dropped, name) || is_on_stack(p, s.location_id, name)
}

spec fn hits_of<M: NameTest, D: NameTest>(p: ProfileView, r: Reading, mem: M, dropped: D, s: Seq<SampleView>) -> Seq<Hit> {
    Seq::new(s.len(), |i: int| hit(p, r, mem, dropped, s[i]))
}

proof fn lemma_memory<M: NameTest, D: NameTest>(p: ProfileView, r: Reading, mem: M, dropped: D, s: SampleView)
    ensures
        hit(p, r, mem, dropped, s).is_mem == is_memory(p, r, mem, dropped, s),
{
    let leaf = leaf_name(p, s.location_id, r.leaf, dropped);
    assert forall|n: Seq<char>| #[trigger] falls_to(p, s.location_id, r.leaf, dropped, n) == (n == leaf) by {
        lemma_falls(p, s.location_id, r.leaf, dropped, n);
    }
    assert(falls_to(p, s.location_id, r.leaf, dropped, leaf));
}

proof fn lemma_summed<M: NameTest, D: NameTest>(
    p: ProfileView,
    r: Reading,
    mem: M,
    dropped: D,
    s: Seq<SampleView>,
    name: Seq<char>,
)
    ensures
        ({
            let h = hits_of(p, r, mem, dropped, s);
            &&& self_value(h, name) == summed(s, own_part(p, r, dropped, name))
            &&& self_second(h, name) == summed(s, own_second(p, r, dropped, name))
            &&& cum_value(h, name) == summed(s, whole_part(p, r, name))
            &&& mem_value(h, name) == summed(s, memory_part(p, r, mem, dropped, name))
            &&& total_value(h) == summed(s, |x: SampleView| value_of(x, r.idx))
            &&& total_second(h) == summed(s, |x: SampleView| second_of(x, r))
            &&& total_mem(h) == summed(s, memory_total(p, r, mem, dropped))
            &&& occurs(h, name) <==> exists|i: int| 0 <= i < s.len() && touches(p, r, dropped, #[trigger] s[i], name)
        }),
    decreases s.len(),
{
    if s.len() > 0 {
        let front = s.drop_last();
        let h = hits_of(p, r, mem, dropped, s);
        let x = s.last();
        lemma_summed(p, r, mem, dropped, front, name);
        assert(h.drop_last() =~= hits_of(p, r, mem, dropped, front));
        assert(h.last() == hit(p, r, mem, dropped, x));
        lemma_memory(p, r, mem, dropped, x);
        lemma_falls(p, x.location_id, r.leaf, dropped, name);
        lemma_on_stack(p, x.location_id, name);
        assert(occurs(h, name) <==> occurs(h.drop_last(), name) || touches(p, r, dropped, x, name));
        if exists|i: int| 0 <= i < s.len() && touches(p, r, dropped, #[trigger] s[i], name) {
            let i = choose|i: int| 0 <= i < s.len() && touches(p, r, dropped, #[trigger] s[i], name);
            if i < front.len() {
                assert(front[i] == s[i]);
            }
        }
        if occurs(h, name) {
            if touches(p, r, dropped, x, name) {
                assert(s[s.len() - 1] == x);
            } else {
                let i = choose|i: int| 0 <= i < front.len() && touches(p, r, dropped, #[trigger] front[i], name);
                assert(s[i] == front[i]);
            }
        }
    }
}

proof fn lemma_rows<M: NameTest>(h: Seq<Hit>, names: Seq<Seq<char>>, mem: M)
    requires
        names.no_duplicates(),
    ensures
        forall|i: int|
            0 <= i < stats_in(h, names, mem).len() ==> {
                let row = #[trigger] stats_in(h, names, mem)[i];
                row == stats_of(h, row.name, mem) && occurs(h, row.name) && names.contains(row.name)
            },
        forall|i: int, j: int|
            0 <= i < j < stats_in(h, names, mem).len() ==> (#[trigger] stats_in(h, names, mem)[i]).name != (
            #[trigger] stats_in(h, names, mem)[j]).name,
        forall|n: Seq<char>|
            #[trigger] names.contains(n) && occurs(h, n) ==> exists|i: int|
                0 <= i < stats_in(h, names, mem).len() && (#[trigger] stats_in(h, names, mem)[i]).name == n,
    decreases names.len(),
{
    if names.len() > 0 {
        let front = names.drop_last();
        let a = stats_in(h, front, mem);
        let all = stats_in(h, names, mem);
        let m = names.len() - 1;
        lemma_rows(h, front, mem);
        assert forall|i: int| 0 <= i < all.len() implies {
            let row = #[trigger] all[i];
            row == stats_of(h, row.name, mem) && occurs(h, row.name) && names.contains(row.name)
        } by {
            if i < a.len() {
                assert(all[i] == a[i]);
                assert(front.contains(a[i].name));
                assert(names[front.index_of(a[i].name)] == a[i].name);
            } else {
                assert(names[m] == names.last());
            }
        }
        assert forall|i: int, j: int| 0 <= i < j < all.len() implies (#[trigger] all[i]).name != (#[trigger] all[j]).name by {
            assert(all[i] == a[i]);
            if j < a.len() {
                assert(all[j] == a[j]);
            } else {
                assert(front.contains(a[i].name));
                let k = front.index_of(a[i].name);
                assert(front[k] == a[i].name);
                assert(names[k] != names[m]);
            }
        }
        assert forall|n: Seq<char>| #[trigger] names.contains(n) && occurs(h, n) implies exists|i: int|
            0 <= i < all.len() && (#[trigger] all[i]).name == n by {
            let k = names.index_of(n);
            assert(names[k] == n);
            if k < m {
                assert(front[k] == n);
                assert(front.contains(n));
                let i = choose|i: int| 0 <= i < a.len() && (#[trigger] a[i]).name == n;
                assert(all[i] == a[i]);
            } else {
                assert(all[all.len() - 1].name == n);
            }
        }
    }
}

proof fn lemma_named<D: NameTest>(p: ProfileView, r: Reading, dropped: D, s: SampleView, name: Seq<char>)
    requires
        touches(p, r, dropped, s, name),
    ensures
        all_names(p).contains(name),
{
    let list = location_names(p).push("(unknown)"@);
    lemma_first_seen(list);
    assert(list[list.len() - 1] == "(unknown)"@);
    assert(list.contains("(unknown)"@));
    if name != "(unknown)"@ {
        let id = if is_on_stack(p, s.location_id, name) {
            s.location_id[choose|i: int| 0 <= i < s.location_id.len() && is_called(p, #[trigger] s.location_id[i], name)]
        } else {
            match r.leaf {
                LeafRule::Innermost => s.location_id[0],
                LeafRule::InnermostShown => s.location_id[choose|i: int|
                    {
                        &&& 0 <= i < s.location_id.len()
                        &&& is_called(p, #[trigger] s.location_id[i], name)
                        &&& !dropped.holds(name)
                        &&& forall|j: int| 0 <= j < i ==> is_passed(p, #[trigger] s.location_id[j], dropped)
                    }],
            }
        };
        assert(is_called(p, id, name));
        lemma_called(p, id, name);
        lemma_location_with(p.location, id);
        let l = location_with(p.location, id).unwrap();
        assert(list[l] == name);
    }
    assert(list.contains(name));
    assert(first_seen(list).contains(name));
}

/// What a summary says of a profile: the totals are those of all samples, each name that a
/// sample has to do with has one row, and a row holds the sums of its name.
pub proof fn law_summary<M: NameTest, D: NameTest>(p: ProfileView, r: Reading, mem: M, dropped: D)
    requires
        summary_fits(hits(p, r, mem, dropped), mem),
    ensures
        rollup(p, r, mem, dropped).total == summed(p.sample, |s: SampleView| value_of(s, r.idx)),
        rollup(p, r, mem, dropped).total2 == summed(p.sample, |s: SampleView| second_of(s, r)),
        rollup(p, r, mem, dropped).mem_mgmt_total == summed(p.sample, memory_total(p, r, mem, dropped)),
        forall|i: int|
            0 <= i < rollup(p, r, mem, dropped).stats.len() ==> {
                let row = #[trigger] rollup(p, r, mem, dropped).stats[i];
                &&& row.self_v == summed(p.sample, own_part(p, r, dropped, row.name))
                &&& row.self_v2 == summed(p.sample, own_second(p, r, dropped, row.name))
                &&& row.cum == summed(p.sample, whole_part(p, r, row.name))
                &&& row.is_mem == mem.holds(row.name)
                &&& row.is_mem ==> row.mem_cum == 0
                &&& !row.is_mem ==> row.mem_cum == summed(p.sample, memory_part(p, r, mem, dropped, row.name))
                &&& exists|k: int| 0 <= k < p.sample.len() && touches(p, r, dropped, #[trigger] p.sample[k], row.name)
            },
        forall|i: int, j: int|
            0 <= i < j < rollup(p, r, mem, dropped).stats.len() ==> (#[trigger] rollup(p, r, mem, dropped).stats[i]).name
                != (#[trigger] rollup(p, r, mem, dropped).stats[j]).name,
        forall|k: int, n: Seq<char>|
            0 <= k < p.sample.len() && #[trigger] touches(p, r, dropped, p.sample[k], n) ==> exists|i: int|
                0 <= i < rollup(p, r, mem, dropped).stats.len() && (#[trigger] rollup(p, r, mem, dropped).stats[i]).name
                    == n,
{
    let h = hits(p, r, mem, dropped);
    let out = rollup(p, r, mem, dropped);
    let names = all_names(p);
    assert(h =~= hits_of(p, r, mem, dropped, p.sample));
    assert(h.take(h.len() as int) =~= h);
    assert(sums_fit(h.take(h.len() as int), mem));
    lemma_first_seen(location_names(p).push("(unknown)"@));
    lemma_rows(h, names, mem);
    lemma_summed(p, r, mem, dropped, p.sample, Seq::empty());
    assert forall|i: int| 0 <= i < out.stats.len() implies {
        let row = #[trigger] out.stats[i];
        &&& row.self_v == summed(p.sample, own_part(p, r, dropped, row.name))
        &&& row.self_v2 == summed(p.sample, own_second(p, r, dropped, row.name))
        &&& row.cum == summed(p.sample, whole_part(p, r, row.name))
        &&& row.is_mem == mem.holds(row.name)
        &&& row.is_mem ==> row.mem_cum == 0
        &&& !row.is_mem ==> row.mem_cum == summed(p.sample, memory_part(p, r, mem, dropped, row.name))
        &&& exists|k: int| 0 <= k < p.sample.len() && touches(p, r, dropped, #[trigger] p.sample[k], row.name)
    } by {
        let row = out.stats[i];
        assert(stats_in(h, names, mem)[i] == row);
        lemma_summed(p, r, mem, dropped, p.sample, row.name);
        assert(crate::summary::name_fits(h, row.name, mem));
    }
    assert forall|k: int, n: Seq<char>|
        0 <= k < p.sample.len() && #[trigger] touches(p, r, dropped, p.sample[k], n) implies exists|i: int|
        0 <= i < out.stats.len() && (#[trigger] out.stats[i]).name == n by {
        lemma_named(p, r, dropped, p.sample[k], n);
        lemma_summed(p, r, mem, dropped, p.sample, n);
        assert(names.contains(n) && occurs(h, n));
        let i = choose|i: int| 0 <= i < stats_in(h, names, mem).len() && (#[trigger] stats_in(h, names, mem)[i]).name == n;
        assert(out.stats[i].name == n);
    }
}

/// A summary reads the values of its axis, and a sample's own value falls to the innermost
/// frame that the profile does not say to pass over.
pub proof fn law_summary_reading(p: ProfileView)
    ensures
        summary_reading(p).idx == axis_of(p).idx,
        summary_reading(p).secondary_idx == axis_of(p).secondary_idx,
        summary_reading(p).is_heap == axis_of(p).is_heap,
        summary_reading(p).leaf is InnermostShown,
        p.drop_frames <= 0 ==> drop_text(p).len() == 0,
        0 < p.drop_frames < p.string_table.len() ==> drop_text(p) == p.string_table[p.drop_frames as int],
{
}

} // verus!

//! What the listings of a summary and of a comparison show, and in which order.
use vstd::prelude::*;
use vstd::seq_lib::group_to_multiset_ensures;
use crate::rank::{ahead, law_ranked, ranked};
use crate::report::{
    change_key, changed, column_value, diff_fits, diff_rows, is_diff, listed, members, names_of, own_value,
    shown, top, top_changes, Change, Column, Diff, DiffRowView, Group,
};
use crate::summary::{FuncStatsView, RollupView};
use crate::tally::{first_seen, lemma_first_seen};

verus! {

proof fn lemma_all_ranked(keys: Seq<int>, x: int)
    requires
        0 <= x < keys.len(),
    ensures
        ranked(keys).contains(x),
{
    broadcast use group_to_multiset_ensures;

    law_ranked(keys);
    let all = Seq::new(keys.len(), |i: int| i);
    assert(all[x] == x);
    assert(all.contains(x));
    assert(ranked(keys).to_multiset().count(x) > 0);
}

/// Whether a function is of this kind of change: its own value is in both profiles and went
/// down or up, or it is in one of them alone.
pub open spec fn is_of_kind(r: DiffRowView, c: Change) -> bool {
    match c {
        Change::Improved => r.base > 0 && r.patched > 0 && r.delta < 0,
        Change::Regressed => r.base > 0 && r.patched > 0 && r.delta > 0,
        Change::Gone => r.base > 0 && r.patched == 0,
        Change::New => r.base == 0 && r.patched > 0,
    }
}

/// Whether a change is at least as large as another one of its kind: a decrease, an increase,
/// a value that is gone, a value that is new.
pub open spec fn changed_no_less(r: DiffRowView, than: DiffRowView, c: Change) -> bool {
    match c {
        Change::Improved => r.delta <= than.delta,
        Change::Regressed => r.delta >= than.delta,
        Change::Gone => r.base >= than.base,
        Change::New => r.patched >= than.patched,
    }
}

proof fn lemma_changed(s: Seq<DiffRowView>, c: Change)
    ensures
        forall|i: int| 0 <= i < changed(s, c).len() ==> 0 <= #[trigger] changed(s, c)[i] < s.len() && is_of_kind(
            s[changed(s, c)[i]],
            c,
        ),
        forall|i: int, j: int|
            0 <= i < j < changed(s, c).len() ==> #[trigger] changed(s, c)[i] < #[trigger] changed(s, c)[j],
        forall|k: int| 0 <= k < s.len() && is_of_kind(#[trigger] s[k], c) ==> changed(s, c).contains(k),
    decreases s.len(),
{
    if s.len() > 0 {
        let front = s.drop_last();
        let f = changed(front, c);
        let all = changed(s, c);
        lemma_changed(front, c);
        assert forall|i: int| 0 <= i < all.len() implies 0 <= #[trigger] all[i] < s.len() && is_of_kind(s[all[i]], c) by {
            if i < f.len() {
                assert(all[i] == f[i]);
                assert(front[f[i]] == s[f[i]]);
            }
        }
        assert forall|i: int, j: int| 0 <= i < j < all.len() implies #[trigger] all[i] < #[trigger] all[j] by {
            assert(all[i] == f[i]);
            if j < f.len() {
                assert(all[j] == f[j]);
            }
        }
        assert forall|k: int| 0 <= k < s.len() && is_of_kind(#[trigger] s[k], c) implies all.contains(k) by {
            if k < front.len() {
                assert(front[k] == s[k]);
                assert(f.contains(k));
                let i = choose|i: int| 0 <= i < f.len() && f[i] == k;
                assert(all[i] == k);
            } else {
                assert(all[f.len() as int] == k);
            }
        }
    }
}

/// A listing of changes holds functions of its kind, each once, the largest change first: in
/// improvements the differences never decrease from one to the next, in regressions they never
/// increase. It holds at most 15 improvements, or 10 changes of another kind, and none that it
/// leaves out is larger than one that it holds.
pub proof fn law_changes_listed(rows: Seq<DiffRowView>, c: Change)
    ensures
        ({
            let t = top_changes(rows, c);
            let limit: nat = if c == Change::Improved {
                15
            } else {
                10
            };
            &&& t.len() <= limit
            &&& forall|i: int| 0 <= i < t.len() ==> 0 <= #[trigger] t[i] < rows.len() && is_of_kind(rows[t[i]], c)
            &&& forall|i: int, j: int|
                0 <= i < j < t.len() ==> #[trigger] t[i] != #[trigger] t[j] && changed_no_less(
                    rows[t[i]],
                    rows[t[j]],
                    c,
                )
            &&& forall|k: int|
                0 <= k < rows.len() && is_of_kind(#[trigger] rows[k], c) && !t.contains(k) ==> t.len() == limit
                    && forall|i: int| 0 <= i < t.len() ==> changed_no_less(rows[#[trigger] t[i]], rows[k], c)
        }),
{
    let m = changed(rows, c);
    let keys = Seq::new(m.len(), |i: int| change_key(rows[m[i]], c));
    let order = ranked(keys);
    let t = top_changes(rows, c);
    lemma_changed(rows, c);
    law_ranked(keys);
    assert forall|i: int| 0 <= i < t.len() implies 0 <= #[trigger] t[i] < rows.len() && is_of_kind(rows[t[i]], c) by {
        assert(t[i] == m[order[i]]);
    }
    assert forall|i: int, j: int| 0 <= i < j < t.len() implies #[trigger] t[i] != #[trigger] t[j] && changed_no_less(
        rows[t[i]],
        rows[t[j]],
        c,
    ) by {
        assert(ahead(keys, order[i], order[j]));
        assert(t[i] == m[order[i]] && t[j] == m[order[j]]);
        if order[i] < order[j] {
            assert(m[order[i]] < m[order[j]]);
        } else {
            assert(m[order[j]] < m[order[i]]);
        }
    }
    assert forall|k: int| 0 <= k < rows.len() && is_of_kind(#[trigger] rows[k], c) && !t.contains(k) implies t.len()
        == (if c == Change::Improved {
        15nat
    } else {
        10
    }) && forall|i: int| 0 <= i < t.len() ==> changed_no_less(rows[#[trigger] t[i]], rows[k], c) by {
        assert(m.contains(k));
        let x = choose|x: int| 0 <= x < m.len() && m[x] == k;
        lemma_all_ranked(keys, x);
        let y = choose|y: int| 0 <= y < order.len() && order[y] == x;
        if y < t.len() {
            assert(t[y] == k);
        }
        assert forall|i: int| 0 <= i < t.len() implies changed_no_less(rows[#[trigger] t[i]], rows[k], c) by {
            assert(ahead(keys, order[i], order[y]));
            assert(t[i] == m[order[i]]);
        }
    }
}

/// Whether a function belongs to a group: all, those that are not memory management, and
/// those that are.
pub open spec fn belongs(s: FuncStatsView, g: Group) -> bool {
    match g {
        Group::All => true,
        Group::Users => s.is_mem == false,
        Group::Primitives => s.is_mem == true,
    }
}

/// The value that a listing goes by: a function's own one, or the one that was spent on memory
/// management below it.
pub open spec fn listed_value(s: FuncStatsView, c: Column) -> i64 {
    match c {
        Column::Own => s.self_v,
        Column::Memory => s.mem_cum,
    }
}

proof fn lemma_all_members(s: Seq<FuncStatsView>, g: Group)
    ensures
        forall|i: int| 0 <= i < members(s, g).len() ==> 0 <= #[trigger] members(s, g)[i] < s.len() && belongs(
            s[members(s, g)[i]],
            g,
        ),
        forall|i: int, j: int|
            0 <= i < j < members(s, g).len() ==> #[trigger] members(s, g)[i] < #[trigger] members(s, g)[j],
        forall|k: int| 0 <= k < s.len() && belongs(#[trigger] s[k], g) ==> members(s, g).contains(k),
    decreases s.len(),
{
    if s.len() > 0 {
        let front = s.drop_last();
        let f = members(front, g);
        let all = members(s, g);
        lemma_all_members(front, g);
        assert forall|i: int| 0 <= i < all.len() implies 0 <= #[trigger] all[i] < s.len() && belongs(s[all[i]], g) by {
            if i < f.len() {
                assert(all[i] == f[i]);
                assert(front[f[i]] == s[f[i]]);
            }
        }
        assert forall|i: int, j: int| 0 <= i < j < all.len() implies #[trigger] all[i] < #[trigger] all[j] by {
            assert(all[i] == f[i]);
            if j < f.len() {
                assert(all[j] == f[j]);
            }
        }
        assert forall|k: int| 0 <= k < s.len() && belongs(#[trigger] s[k], g) implies all.contains(k) by {
            if k < front.len() {
                assert(front[k] == s[k]);
                assert(f.contains(k));
                let i = choose|i: int| 0 <= i < f.len() && f[i] == k;
                assert(all[i] == k);
            } else {
                assert(all[f.len() as int] == k);
            }
        }
    }
}

proof fn lemma_shown_up_to(values: Seq<i64>, n: nat)
    ensures
        shown(values, n) <= n,
        shown(values, n) <= values.len(),
        forall|i: int| 0 <= i < shown(values, n) ==> #[trigger] values[i] != 0,
        shown(values, n) < n && shown(values, n) < values.len() ==> values[shown(values, n) as int] == 0,
    decreases n,
{
    if !(n == 0 || values.len() == 0 || values[0] == 0) {
        let rest = values.drop_first();
        lemma_shown_up_to(rest, (n - 1) as nat);
        assert forall|i: int| 0 <= i < shown(values, n) implies #[trigger] values[i] != 0 by {
            if i > 0 {
                assert(rest[i - 1] == values[i]);
            }
        }
    }
}

/// A listing of functions holds those of its group, each once, the largest value first, at
/// most as many as asked for and none of value zero. What it leaves out is no larger than what
/// it holds, and where it holds fewer than asked for, is not above zero.
pub proof fn law_functions_listed(s: Seq<FuncStatsView>, g: Group, c: Column, n: nat)
    ensures
        ({
            let t = top(s, g, c, n);
            &&& t.len() <= n
            &&& forall|i: int|
                0 <= i < t.len() ==> 0 <= #[trigger] t[i] < s.len() && belongs(s[t[i]], g) && listed_value(s[t[i]], c)
                    != 0
            &&& forall|i: int, j: int|
                0 <= i < j < t.len() ==> #[trigger] t[i] != #[trigger] t[j] && listed_value(s[t[i]], c)
                    >= listed_value(s[t[j]], c)
            &&& forall|k: int|
                0 <= k < s.len() && belongs(#[trigger] s[k], g) && !t.contains(k) ==> (t.len() == n || listed_value(
                    s[k],
                    c,
                ) <= 0) && forall|i: int|
                    0 <= i < t.len() ==> listed_value(s[#[trigger] t[i]], c) >= listed_value(s[k], c)
        }),
{
    let m = members(s, g);
    let keys = Seq::new(m.len(), |i: int| -(column_value(s[m[i]], c) as int));
    let order = ranked(keys);
    let all = listed(s, g, c);
    let values = Seq::new(all.len(), |i: int| column_value(s[all[i]], c));
    let t = top(s, g, c, n);
    lemma_all_members(s, g);
    law_ranked(keys);
    lemma_shown_up_to(values, n);
    assert forall|i: int| 0 <= i < t.len() implies 0 <= #[trigger] t[i] < s.len() && belongs(s[t[i]], g)
        && listed_value(s[t[i]], c) != 0 by {
        assert(t[i] == all[i] && all[i] == m[order[i]]);
        assert(values[i] != 0);
    }
    assert forall|i: int, j: int| 0 <= i < j < t.len() implies #[trigger] t[i] != #[trigger] t[j] && listed_value(
        s[t[i]],
        c,
    ) >= listed_value(s[t[j]], c) by {
        assert(ahead(keys, order[i], order[j]));
        assert(t[i] == m[order[i]] && t[j] == m[order[j]]);
        if order[i] < order[j] {
            assert(m[order[i]] < m[order[j]]);
        } else {
            assert(m[order[j]] < m[order[i]]);
        }
    }
    assert forall|k: int| 0 <= k < s.len() && belongs(#[trigger] s[k], g) && !t.contains(k) implies (t.len() == n
        || listed_value(s[k], c) <= 0) && forall|i: int|
        0 <= i < t.len() ==> listed_value(s[#[trigger] t[i]], c) >= listed_value(s[k], c) by {
        assert(m.contains(k));
        let x = choose|x: int| 0 <= x < m.len() && m[x] == k;
        lemma_all_ranked(keys, x);
        let y = choose|y: int| 0 <= y < order.len() && order[y] == x;
        if y < t.len() {
            assert(t[y] == k);
        }
        if t.len() < n {
            let z = t.len() as int;
            assert(values[z] == 0);
            assert(all[z] == m[order[z]]);
            if z < y {
                assert(ahead(keys, order[z], order[y]));
            }
        }
        assert forall|i: int| 0 <= i < t.len() implies listed_value(s[#[trigger] t[i]], c) >= listed_value(s[k], c) by {
            assert(ahead(keys, order[i], order[y]));
            assert(t[i] == m[order[i]]);
        }
    }
}

/// Whether no name is there twice.
pub open spec fn names_distinct(s: Seq<FuncStatsView>) -> bool {
    forall|i: int, j: int| 0 <= i < j < s.len() ==> (#[trigger] s[i]).name != (#[trigger] s[j]).name
}

proof fn lemma_own_value(s: Seq<FuncStatsView>, name: Seq<char>)
    requires
        names_distinct(s),
    ensures
        forall|i: int| 0 <= i < s.len() && (#[trigger] s[i]).name == name ==> own_value(s, name) == s[i].self_v,
        (forall|i: int| 0 <= i < s.len() ==> (#[trigger] s[i]).name != name) ==> own_value(s, name) == 0,
    decreases s.len(),
{
    if s.len() > 0 {
        let front = s.drop_last();
        let n = s.len() - 1;
        assert forall|i: int, j: int| 0 <= i < j < front.len() implies (#[trigger] front[i]).name != (
        #[trigger] front[j]).name by {
            assert(s[i].name != s[j].name);
        }
        lemma_own_value(front, name);
        assert forall|i: int| 0 <= i < s.len() && (#[trigger] s[i]).name == name implies own_value(s, name)
            == s[i].self_v by {
            if i < n {
                assert(s[i].name != s[n].name);
                assert(front[i] == s[i]);
            }
        }
        if forall|i: int| 0 <= i < s.len() ==> (#[trigger] s[i]).name != name {
            assert(s[n].name != name);
            assert forall|i: int| 0 <= i < front.len() implies (#[trigger] front[i]).name != name by {
                assert(s[i].name != name);
            }
        }
    }
}

/// A comparison has one row for each function of either summary. It gives the function's own
/// value in both, zero where it is missing, and by how much the second is above the first.
pub proof fn law_rows(base: Seq<FuncStatsView>, patched: Seq<FuncStatsView>)
    requires
        names_distinct(base),
        names_distinct(patched),
    ensures
        ({
            let rows = diff_rows(base, patched);
            &&& forall|i: int, j: int|
                0 <= i < j < rows.len() ==> (#[trigger] rows[i]).name != (#[trigger] rows[j]).name
            &&& forall|k: int|
                0 <= k < base.len() ==> exists|i: int|
                    0 <= i < rows.len() && (#[trigger] rows[i]).name == (#[trigger] base[k]).name
            &&& forall|k: int|
                0 <= k < patched.len() ==> exists|i: int|
                    0 <= i < rows.len() && (#[trigger] rows[i]).name == (#[trigger] patched[k]).name
            &&& forall|i: int, k: int|
                0 <= i < rows.len() && 0 <= k < base.len() && (#[trigger] rows[i]).name == (#[trigger] base[k]).name
                    ==> rows[i].base == base[k].self_v
            &&& forall|i: int, k: int|
                0 <= i < rows.len() && 0 <= k < patched.len() && (#[trigger] rows[i]).name == (
                #[trigger] patched[k]).name ==> rows[i].patched == patched[k].self_v
            &&& forall|i: int|
                #![trigger rows[i]]
                0 <= i < rows.len() ==> {
                    &&& (forall|k: int| 0 <= k < base.len() ==> (#[trigger] base[k]).name != rows[i].name)
                        ==> rows[i].base == 0
                    &&& (forall|k: int| 0 <= k < patched.len() ==> (#[trigger] patched[k]).name != rows[i].name)
                        ==> rows[i].patched == 0
                    &&& -0x8000_0000_0000_0000 <= rows[i].patched - rows[i].base <= 0x7fff_ffff_ffff_ffff
                        ==> rows[i].base + rows[i].delta == rows[i].patched
                }
        }),
{
    let rows = diff_rows(base, patched);
    let all = names_of(base) + names_of(patched);
    let names = first_seen(all);
    lemma_first_seen(all);
    assert forall|i: int, j: int| 0 <= i < j < rows.len() implies (#[trigger] rows[i]).name != (
    #[trigger] rows[j]).name by {
        assert(names[i] != names[j]);
    }
    assert forall|k: int| 0 <= k < base.len() implies exists|i: int|
        0 <= i < rows.len() && (#[trigger] rows[i]).name == (#[trigger] base[k]).name by {
        assert(all[k] == base[k].name);
        assert(names.contains(all[k]));
        let i = choose|i: int| 0 <= i < names.len() && names[i] == all[k];
        assert(rows[i].name == base[k].name);
    }
    assert forall|k: int| 0 <= k < patched.len() implies exists|i: int|
        0 <= i < rows.len() && (#[trigger] rows[i]).name == (#[trigger] patched[k]).name by {
        assert(all[base.len() + k] == patched[k].name);
        assert(names.contains(all[base.len() + k]));
        let i = choose|i: int| 0 <= i < names.len() && names[i] == all[base.len() + k];
        assert(rows[i].name == patched[k].name);
    }
    assert forall|i: int, k: int|
        0 <= i < rows.len() && 0 <= k < base.len() && (#[trigger] rows[i]).name == (#[trigger] base[k]).name implies rows[i].base
        == base[k].self_v by {
        lemma_own_value(base, rows[i].name);
    }
    assert forall|i: int, k: int|
        0 <= i < rows.len() && 0 <= k < patched.len() && (#[trigger] rows[i]).name == (#[trigger] patched[k]).name implies rows[i].patched
        == patched[k].self_v by {
        lemma_own_value(patched, rows[i].name);
    }
    assert forall|i: int| #![trigger rows[i]] 0 <= i < rows.len() implies {
        &&& (forall|k: int| 0 <= k < base.len() ==> (#[trigger] base[k]).name != rows[i].name) ==> rows[i].base == 0
        &&& (forall|k: int| 0 <= k < patched.len() ==> (#[trigger] patched[k]).name != rows[i].name)
            ==> rows[i].patched == 0
        &&& -0x8000_0000_0000_0000 <= rows[i].patched - rows[i].base <= 0x7fff_ffff_ffff_ffff ==> rows[i].base
            + rows[i].delta == rows[i].patched
    } by {
        lemma_own_value(base, rows[i].name);
        lemma_own_value(patched, rows[i].name);
    }
}

/// A comparison says how far the patched profile is above the base profile, on the second axis
/// too where there is one.
pub proof fn law_totals_compared(d: Diff, base: RollupView, patched: RollupView, second: bool)
    requires
        diff_fits(base, patched, second),
        is_diff(d, base, patched, second),
    ensures
        base.total + d.total_delta == patched.total,
        second ==> (d.total2_delta matches Some(n) && base.total2 + n == patched.total2),
        !second ==> d.total2_delta is None,
{
}

} // verus!

//! Listing entries by a number.
use vstd::prelude::*;

verus! {

/// Puts entry `i` into a listing: behind every entry whose number is no larger.
pub open spec fn slotted(order: Seq<int>, keys: Seq<int>, i: int) -> Seq<int>
    decreases order.len(),
{
    if order.len() == 0 || keys[order.last()] <= keys[i] {
        order.push(i)
    } else {
        slotted(order.drop_last(), keys, i).push(order.last())
    }
}

/// The entries from the smallest number to the largest. Entries of the same number keep
/// their order.
pub open spec fn ranked(keys: Seq<int>) -> Seq<int>
    decreases keys.len(),
{
    if keys.len() == 0 {
        Seq::empty()
    } else {
        slotted(ranked(keys.drop_last()), keys, keys.len() - 1)
    }
}

/// Whether entry `a` is listed ahead of entry `b`.
pub open spec fn ahead(keys: Seq<int>, a: int, b: int) -> bool {
    keys[a] < keys[b] || (keys[a] == keys[b] && a < b)
}

/// Whether a listing goes from the smallest number to the largest, and keeps the order of
/// entries of the same number.
pub open spec fn is_ranked(order: Seq<int>, keys: Seq<int>) -> bool {
    forall|a: int, b: int| 0 <= a < b < order.len() ==> ahead(keys, #[trigger] order[a], #[trigger] order[b])
}

proof fn lemma_slotted(order: Seq<int>, keys: Seq<int>, i: int)
    requires
        is_ranked(order, keys),
        forall|a: int| 0 <= a < order.len() ==> 0 <= #[trigger] order[a] < i,
        i < keys.len(),
    ensures
        is_ranked(slotted(order, keys, i), keys),
        slotted(order, keys, i).to_multiset() == order.to_multiset().insert(i),
        slotted(order, keys, i).len() == order.len() + 1,
        forall|a: int|
            0 <= a < slotted(order, keys, i).len() ==> (#[trigger] slotted(order, keys, i)[a] == i || order.contains(
                slotted(order, keys, i)[a],
            )),
    decreases order.len(),
{
    broadcast use vstd::seq_lib::group_to_multiset_ensures;

    let r = slotted(order, keys, i);
    if order.len() == 0 || keys[order.last()] <= keys[i] {
        assert forall|a: int, b: int| 0 <= a < b < r.len() implies ahead(keys, #[trigger] r[a], #[trigger] r[b]) by {
            if b == order.len() {
                assert(r[a] == order[a]);
                if a + 1 < order.len() {
                    assert(ahead(keys, order[a], order[order.len() - 1]));
                }
            } else {
                assert(r[a] == order[a] && r[b] == order[b]);
            }
        }
        assert forall|a: int| 0 <= a < r.len() implies (#[trigger] r[a] == i || order.contains(r[a])) by {
            if a < order.len() {
                assert(order[a] == r[a]);
            }
        }
    } else {
        let front = order.drop_last();
        assert forall|a: int, b: int| 0 <= a < b < front.len() implies ahead(
            keys,
            #[trigger] front[a],
            #[trigger] front[b],
        ) by {
            assert(ahead(keys, order[a], order[b]));
        }
        lemma_slotted(front, keys, i);
        let m = slotted(front, keys, i);
        assert(order =~= front.push(order.last()));
        assert forall|a: int, b: int| 0 <= a < b < r.len() implies ahead(keys, #[trigger] r[a], #[trigger] r[b]) by {
            if b == m.len() {
                assert(r[a] == m[a]);
                if m[a] != i {
                    assert(front.contains(m[a]));
                    let c = choose|c: int| 0 <= c < front.len() && front[c] == m[a];
                    assert(ahead(keys, order[c], order[order.len() - 1]));
                }
            } else {
                assert(r[a] == m[a] && r[b] == m[b]);
            }
        }
        assert forall|a: int| 0 <= a < r.len() implies (#[trigger] r[a] == i || order.contains(r[a])) by {
            if a < m.len() {
                assert(r[a] == m[a]);
                if m[a] != i {
                    assert(front.contains(m[a]));
                    let c = choose|c: int| 0 <= c < front.len() && front[c] == m[a];
                    assert(order[c] == m[a]);
                }
            } else {
                assert(order[order.len() - 1] == r[a]);
            }
        }
        assert(r.to_multiset() =~= order.to_multiset().insert(i));
    }
}

proof fn lemma_same_keys(keys: Seq<int>, n: int)
    requires
        0 <= n < keys.len(),
        forall|a: int| 0 <= a < ranked(keys.take(n)).len() ==> 0 <= #[trigger] ranked(keys.take(n))[a] < n,
        is_ranked(ranked(keys.take(n)), keys.take(n)),
    ensures
        is_ranked(ranked(keys.take(n)), keys),
{
    let o = ranked(keys.take(n));
    assert forall|a: int, b: int| 0 <= a < b < o.len() implies ahead(keys, #[trigger] o[a], #[trigger] o[b]) by {
        assert(ahead(keys.take(n), o[a], o[b]));
    }
}

/// A listing goes from the smallest number to the largest, keeps the order of entries of
/// the same number, and holds each entry once.
pub proof fn law_ranked(keys: Seq<int>)
    ensures
        is_ranked(ranked(keys), keys),
        ranked(keys).len() == keys.len(),
        ranked(keys).to_multiset() == Seq::new(keys.len(), |i: int| i).to_multiset(),
        forall|a: int| 0 <= a < ranked(keys).len() ==> 0 <= #[trigger] ranked(keys)[a] < keys.len(),
    decreases keys.len(),
{
    broadcast use vstd::seq_lib::group_to_multiset_ensures;

    if keys.len() > 0 {
        let n = keys.len() - 1;
        let front = keys.drop_last();
        law_ranked(front);
        assert(front =~= keys.take(n));
        lemma_same_keys(keys, n);
        let o = ranked(front);
        lemma_slotted(o, keys, n);
        assert(Seq::new(keys.len(), |i: int| i) =~= Seq::new(front.len(), |i: int| i).push(n));
        let r = ranked(keys);
        assert forall|a: int| 0 <= a < r.len() implies 0 <= #[trigger] r[a] < keys.len() by {
            if r[a] != n {
                assert(o.contains(r[a]));
            }
        }
    } else {
        assert(ranked(keys) =~= Seq::new(keys.len(), |i: int| i));
    }
}

/// Numbers as integers.
pub open spec fn as_ints(v: Seq<i128>) -> Seq<int> {
    Seq::new(v.len(), |i: int| v[i] as int)
}

/// Positions as integers.
pub open spec fn places(v: Seq<usize>) -> Seq<int> {
    Seq::new(v.len(), |i: int| v[i] as int)
}

proof fn lemma_slotted_take(order: Seq<int>, keys: Seq<int>, n: int, i: int)
    requires
        0 <= i < n <= keys.len(),
        forall|a: int| 0 <= a < order.len() ==> 0 <= #[trigger] order[a] < n,
    ensures
        slotted(order, keys.take(n), i) == slotted(order, keys, i),
    decreases order.len(),
{
    if order.len() > 0 {
        assert(order.last() == order[order.len() - 1]);
        lemma_slotted_take(order.drop_last(), keys, n, i);
    }
}

fn slot(r: &mut Vec<usize>, keys: &Vec<i128>, i: usize)
    requires
        i < keys@.len(),
        forall|a: int| 0 <= a < old(r)@.len() ==> (#[trigger] old(r)@[a]) < i,
    ensures
        places(final(r)@) == slotted(places(old(r)@), as_ints(keys@), i as int),
{
    let ghost o = places(r@);
    let ghost k = as_ints(keys@);
    let mut j: usize = r.len();
    assert(o.take(o.len() as int) =~= o);
    assert(slotted(o, k, i as int) =~= slotted(o.take(j as int), k, i as int) + o.skip(j as int));
    while j > 0 && keys[r[j - 1]] > keys[i]
        invariant
            j <= r@.len(),
            r@ == old(r)@,
            i < keys@.len(),
            o == places(r@),
            k == as_ints(keys@),
            forall|a: int| 0 <= a < r@.len() ==> (#[trigger] r@[a]) < i,
            slotted(o, k, i as int) == slotted(o.take(j as int), k, i as int) + o.skip(j as int),
        decreases j,
    {
        proof {
            let t = o.take(j as int);
            assert(t.last() == o[j - 1]);
            assert(t.drop_last() =~= o.take(j - 1));
            assert(slotted(o.take(j as int), k, i as int) + o.skip(j as int) =~= slotted(
                o.take(j - 1),
                k,
                i as int,
            ) + o.skip(j - 1));
        }
        j -= 1;
    }
    r.insert(j, i);
    proof {
        let t = o.take(j as int);
        if j > 0 {
            assert(t.last() == o[j - 1]);
        }
        assert(places(r@) =~= t.push(i as int) + o.skip(j as int));
    }
}

/// Lists entries from the smallest number to the largest.
pub(crate) fn rank(keys: &Vec<i128>) -> (r: Vec<usize>)
    ensures
        places(r@) == ranked(as_ints(keys@)),
        forall|a: int| 0 <= a < r@.len() ==> (#[trigger] r@[a]) < keys@.len(),
        r@.len() == keys@.len(),
{
    let ghost k = as_ints(keys@);
    let mut r: Vec<usize> = Vec::new();
    assert(places(r@) =~= ranked(k.take(0)));
    for i in 0..keys.len()
        invariant
            k == as_ints(keys@),
            places(r@) == ranked(k.take(i as int)),
            r@.len() == i,
            forall|a: int| 0 <= a < r@.len() ==> (#[trigger] r@[a]) < i,
    {
        let ghost before = places(r@);
        proof {
            assert(k.take(i + 1).drop_last() =~= k.take(i as int));
            assert forall|a: int| 0 <= a < before.len() implies 0 <= #[trigger] before[a] < i + 1 by {
                assert(r@[a] < i);
            }
            lemma_slotted_take(before, k, i + 1, i as int);
        }
        slot(&mut r, keys, i);
        proof {
            law_ranked(k.take(i + 1));
            assert(places(r@) == ranked(k.take(i + 1)));
            assert(places(r@).len() == r@.len());
            assert forall|a: int| 0 <= a < r@.len() implies (#[trigger] r@[a]) < i + 1 by {
                assert(places(r@)[a] < i + 1);
            }
        }
    }
    assert(k.take(keys@.len() as int) =~= k);
    r
}

} // verus!

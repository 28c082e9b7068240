//! Samples gathered by key: how often each key came, and the sum of what came with
//! it, listed in the order in which the keys first came.
use vstd::prelude::*;
use std::collections::HashMap;
use crate::pool::{entered, law_entered, lemma_position, NumberIndex};
use crate::proto::{sample_views, Sample, SampleView};

verus! {

broadcast use vstd::std_specs::hash::group_hash_axioms;

/// The distinct entries of `s`, each at the place of its first occurrence.
pub open spec fn first_seen<K>(s: Seq<K>) -> Seq<K>
    decreases s.len(),
{
    if s.len() == 0 {
        Seq::empty()
    } else {
        entered(first_seen(s.drop_last()), s.last())
    }
}

/// How often `k` occurs in `s`.
pub open spec fn count_of<K>(s: Seq<K>, k: K) -> int
    decreases s.len(),
{
    if s.len() == 0 {
        0
    } else {
        count_of(s.drop_last(), k) + if s.last() == k {
            1int
        } else {
            0
        }
    }
}

/// The sum of the weights that came with `k`.
pub open spec fn sum_of<K>(s: Seq<K>, w: Seq<i64>, k: K) -> int
    decreases s.len(),
{
    if s.len() == 0 || w.len() != s.len() {
        0
    } else {
        sum_of(s.drop_last(), w.drop_last(), k) + if s.last() == k {
            w.last() as int
        } else {
            0
        }
    }
}

/// The sum of all weights.
pub open spec fn total(w: Seq<i64>) -> int
    decreases w.len(),
{
    if w.len() == 0 {
        0
    } else {
        total(w.drop_last()) + w.last()
    }
}

/// The sum of the numbers of a list.
pub open spec fn sum(s: Seq<int>) -> int
    decreases s.len(),
{
    if s.len() == 0 {
        0
    } else {
        sum(s.drop_last()) + s.last()
    }
}

pub proof fn lemma_first_seen<K>(s: Seq<K>)
    ensures
        first_seen(s).no_duplicates(),
        first_seen(s).len() <= s.len(),
        forall|k: K| #[trigger] first_seen(s).contains(k) <==> s.contains(k),
    decreases s.len(),
{
    if s.len() > 0 {
        lemma_first_seen(s.drop_last());
        law_entered(first_seen(s.drop_last()), s.last());
        let f = first_seen(s.drop_last());
        assert forall|k: K| #[trigger] first_seen(s).contains(k) <==> s.contains(k) by {
            if first_seen(s).contains(k) && k != s.last() {
                let i = first_seen(s).index_of(k);
                assert(f[i] == k);
                assert(f.contains(k));
                assert(s.drop_last().contains(k));
                let j = s.drop_last().index_of(k);
                assert(s[j] == k);
            }
            if s.contains(k) {
                let j = s.index_of(k);
                if j < s.len() - 1 {
                    assert(s.drop_last()[j] == k);
                    assert(s.drop_last().contains(k));
                    assert(f.contains(k));
                } else {
                    assert(k == s.last());
                }
            }
            if k == s.last() {
                assert(s[s.len() - 1] == k);
            }
        }
    }
}

pub proof fn lemma_absent<K>(s: Seq<K>, w: Seq<i64>, k: K)
    requires
        !s.contains(k),
    ensures
        count_of(s, k) == 0,
        sum_of(s, w, k) == 0,
    decreases s.len(),
{
    if s.len() > 0 {
        assert(s[s.len() - 1] != k);
        assert(!s.drop_last().contains(k)) by {
            if s.drop_last().contains(k) {
                let j = s.drop_last().index_of(k);
                assert(s[j] == k);
            }
        }
        lemma_absent(s.drop_last(), w.drop_last(), k);
    }
}

pub proof fn lemma_count_nonnegative<K>(s: Seq<K>, k: K)
    ensures
        0 <= count_of(s, k),
    decreases s.len(),
{
    if s.len() > 0 {
        lemma_count_nonnegative(s.drop_last(), k);
    }
}

/// Counts and sums of fewer than 2^64 samples stay far inside 128 bits.
proof fn lemma_bounds<K>(s: Seq<K>, w: Seq<i64>, k: K)
    ensures
        0 <= count_of(s, k) <= s.len(),
        -(s.len() * 0x8000_0000_0000_0000) <= sum_of(s, w, k) <= s.len() * 0x8000_0000_0000_0000,
    decreases s.len(),
{
    if s.len() > 0 {
        lemma_bounds(s.drop_last(), w.drop_last(), k);
    }
}

pub proof fn lemma_sum_within<K>(s: Seq<K>, w: Seq<i64>, k: K)
    requires
        s.len() == w.len(),
        forall|i: int| 0 <= i < w.len() ==> 0 <= #[trigger] w[i],
    ensures
        0 <= sum_of(s, w, k) <= total(w),
        0 <= count_of(s, k) <= s.len(),
    decreases s.len(),
{
    if s.len() > 0 {
        let front = w.drop_last();
        assert forall|i: int| 0 <= i < front.len() implies 0 <= #[trigger] front[i] by {
            assert(w[i] >= 0);
        }
        lemma_sum_within(s.drop_last(), front, k);
        assert(w[w.len() - 1] >= 0);
    }
}

spec fn counts<K>(keys: Seq<K>, s: Seq<K>) -> Seq<int> {
    Seq::new(keys.len(), |i: int| count_of(s, keys[i]))
}

spec fn sums<K>(keys: Seq<K>, s: Seq<K>, w: Seq<i64>) -> Seq<int> {
    Seq::new(keys.len(), |i: int| sum_of(s, w, keys[i]))
}

proof fn lemma_sum_bump(s: Seq<int>, i: int, d: int)
    requires
        0 <= i < s.len(),
    ensures
        sum(s.update(i, s[i] + d)) == sum(s) + d,
    decreases s.len(),
{
    let t = s.update(i, s[i] + d);
    if i == s.len() - 1 {
        assert(t.drop_last() =~= s.drop_last());
    } else {
        lemma_sum_bump(s.drop_last(), i, d);
        assert(t.drop_last() =~= s.drop_last().update(i, s[i] + d));
    }
}

pub proof fn lemma_sum_scaled(s: Seq<int>, k: int)
    ensures
        sum(Seq::new(s.len(), |i: int| s[i] * k)) == sum(s) * k,
    decreases s.len(),
{
    let t = Seq::new(s.len(), |i: int| s[i] * k);
    if s.len() > 0 {
        lemma_sum_scaled(s.drop_last(), k);
        assert(t.drop_last() =~= Seq::new(s.drop_last().len(), |i: int| s.drop_last()[i] * k));
        assert((sum(s.drop_last()) + s.last()) * k == sum(s.drop_last()) * k + s.last() * k) by (nonlinear_arith);
    }
}

/// Gathering loses nothing: the counts of the distinct keys add up to the number of
/// samples, and their sums to the sum of all weights.
pub proof fn law_totals_kept<K>(s: Seq<K>, w: Seq<i64>)
    requires
        w.len() == s.len(),
    ensures
        sum(Seq::new(first_seen(s).len(), |i: int| count_of(s, first_seen(s)[i]))) == s.len(),
        sum(Seq::new(first_seen(s).len(), |i: int| sum_of(s, w, first_seen(s)[i]))) == total(w),
    decreases s.len(),
{
    let keys = first_seen(s);
    assert(Seq::new(keys.len(), |i: int| count_of(s, keys[i])) =~= counts(keys, s));
    assert(Seq::new(keys.len(), |i: int| sum_of(s, w, keys[i])) =~= sums(keys, s, w));
    if s.len() > 0 {
        let s0 = s.drop_last();
        let w0 = w.drop_last();
        let k = s.last();
        let k0 = first_seen(s0);
        law_totals_kept(s0, w0);
        assert(Seq::new(k0.len(), |i: int| count_of(s0, k0[i])) =~= counts(k0, s0));
        assert(Seq::new(k0.len(), |i: int| sum_of(s0, w0, k0[i])) =~= sums(k0, s0, w0));
        lemma_first_seen(s0);
        if k0.contains(k) {
            let i = k0.index_of(k);
            lemma_sum_bump(counts(k0, s0), i, 1);
            lemma_sum_bump(sums(k0, s0, w0), i, w.last() as int);
            assert(counts(keys, s) =~= counts(k0, s0).update(i, counts(k0, s0)[i] + 1));
            assert(sums(keys, s, w) =~= sums(k0, s0, w0).update(i, sums(k0, s0, w0)[i] + w.last()));
        } else {
            lemma_absent(s0, w0, k);
            assert forall|i: int| 0 <= i < k0.len() implies k0[i] != k by {
                assert(k0.contains(k0[i]));
            }
            assert(counts(keys, s).drop_last() =~= counts(k0, s0));
            assert(sums(keys, s, w).drop_last() =~= sums(k0, s0, w0));
        }
    }
}

/// The stacks as lists of ids.
pub open spec fn stacks(s: Seq<Vec<u64>>) -> Seq<Seq<u64>> {
    Seq::new(s.len(), |i: int| s[i]@)
}

/// A table of distinct stacks.
pub struct StackIndex {
    keys: Vec<Vec<u64>>,
    buckets: HashMap<u64, Vec<usize>>,
}

/// A number that equal stacks share.
spec fn fingerprint(s: Seq<u64>) -> u64
    decreases s.len(),
{
    if s.len() == 0 {
        0
    } else {
        ((fingerprint(s.drop_last()) * 31 + s.last()) % 0x1_0000_0000_0000_0000) as u64
    }
}

fn fingerprint_of(s: &Vec<u64>) -> (r: u64)
    ensures
        r == fingerprint(s@),
{
    let mut h: u64 = 0;
    for i in 0..s.len()
        invariant
            h == fingerprint(s@.take(i as int)),
    {
        assert(s@.take(i + 1).drop_last() =~= s@.take(i as int));
        h = ((h as u128 * 31 + s[i] as u128) % 0x1_0000_0000_0000_0000) as u64;
    }
    assert(s@.take(s@.len() as int) =~= s@);
    h
}

fn same_stack(a: &Vec<u64>, b: &Vec<u64>) -> (r: bool)
    ensures
        r == (a@ == b@),
{
    if a.len() != b.len() {
        return false;
    }
    for i in 0..a.len()
        invariant
            a@.len() == b@.len(),
            forall|j: int| 0 <= j < i ==> a@[j] == b@[j],
    {
        if a[i] != b[i] {
            return false;
        }
    }
    assert(a@ =~= b@);
    true
}

impl StackIndex {
    /// The stacks in the order in which they came.
    pub closed spec fn table(&self) -> Seq<Seq<u64>> {
        stacks(self.keys@)
    }

    spec fn listed(&self, i: int) -> bool {
        let h = fingerprint(self.table()[i]);
        self.buckets@.contains_key(h) && exists|j: int|
            0 <= j < self.buckets@[h]@.len() && #[trigger] self.buckets@[h]@[j] == i
    }

    pub closed spec fn wf(&self) -> bool {
        &&& self.table().no_duplicates()
        &&& forall|i: int| 0 <= i < self.keys@.len() ==> #[trigger] self.listed(i)
        &&& forall|h: u64, j: int|
            self.buckets@.contains_key(h) && 0 <= j < self.buckets@[h]@.len() ==> #[trigger] self.buckets@[h]@[j]
                < self.keys@.len()
    }

    pub proof fn lemma_table(&self)
        requires
            self.wf(),
        ensures
            self.table().no_duplicates(),
    {
    }

    pub fn new() -> (r: StackIndex)
        ensures
            r.wf(),
            r.table() == Seq::<Seq<u64>>::empty(),
    {
        let r = StackIndex { keys: Vec::new(), buckets: HashMap::new() };
        assert(r.table() =~= Seq::<Seq<u64>>::empty());
        r
    }

    /// The position of a stack that is there.
    fn find(&self, key: &Vec<u64>, h: u64) -> (r: Option<usize>)
        requires
            self.wf(),
            h == fingerprint(key@),
        ensures
            match r {
                Some(i) => i < self.table().len() && self.table()[i as int] == key@,
                None => !self.table().contains(key@),
            },
    {
        if let Some(bucket) = self.buckets.get(&h) {
            for j in 0..bucket.len()
                invariant
                    self.wf(),
                    self.buckets@.contains_key(h),
                    *bucket == self.buckets@[h],
                    forall|k: int| 0 <= k < j ==> self.table()[#[trigger] bucket@[k] as int] != key@,
            {
                let i: usize = bucket[j];
                assert(self.buckets@[h]@[j as int] < self.keys@.len());
                if same_stack(&self.keys[i], key) {
                    return Some(i);
                }
            }
            proof {
                if self.table().contains(key@) {
                    let i = self.table().index_of(key@);
                    assert(self.listed(i));
                }
            }
            return None;
        }
        proof {
            if self.table().contains(key@) {
                let i = self.table().index_of(key@);
                assert(self.listed(i));
            }
        }
        None
    }

    /// The position of `key`, which is put at the end where it is new.
    pub fn enter(&mut self, key: Vec<u64>) -> (i: usize)
        requires
            old(self).wf(),
        ensures
            final(self).wf(),
            final(self).table() == entered(old(self).table(), key@),
            i == final(self).table().index_of(key@),
            i < final(self).table().len(),
    {
        let h: u64 = fingerprint_of(&key);
        if let Some(i) = self.find(&key, h) {
            proof {
                lemma_position(self.table(), i as int);
            }
            return i;
        }
        let i: usize = self.keys.len();
        let mut bucket: Vec<usize> = Vec::new();
        let ghost k = key@;
        let ghost before = *self;
        if let Some(b) = self.buckets.remove(&h) {
            bucket = b;
        }
        let ghost kept = bucket@;
        bucket.push(i);
        self.keys.push(key);
        self.buckets.insert(h, bucket);
        proof {
            assert(self.table() =~= before.table().push(k));
            law_entered(before.table(), k);
            lemma_position(self.table(), i as int);
            assert forall|x: int| 0 <= x < self.keys@.len() implies #[trigger] self.listed(x) by {
                if x == i {
                    assert(self.buckets@[h]@[kept.len() as int] == i);
                } else {
                    assert(before.listed(x));
                    assert(self.table()[x] == before.table()[x]);
                    let g = fingerprint(self.table()[x]);
                    let j = choose|j: int| 0 <= j < before.buckets@[g]@.len() && #[trigger] before.buckets@[g]@[j] == x;
                    assert(self.buckets@[g]@[j] == x);
                }
            }
            assert forall|g: u64, j: int|
                self.buckets@.contains_key(g) && 0 <= j < self.buckets@[g]@.len() implies #[trigger] self.buckets@[g]@[j]
                < self.keys@.len() by {
                if g == h {
                    if j < kept.len() {
                        assert(before.buckets@[g]@[j] < before.keys@.len());
                    }
                } else {
                    assert(before.buckets@[g]@[j] < before.keys@.len());
                }
            }
        }
        i
    }
}

/// Whether every count and every sum is a 64-bit number.
pub open spec fn tally_fits<K>(s: Seq<K>, w: Seq<i64>) -> bool {
    forall|i: int|
        0 <= i < first_seen(s).len() ==> count_of(s, #[trigger] first_seen(s)[i]) <= i64::MAX && i64::MIN <= sum_of(
            s,
            w,
            first_seen(s)[i],
        ) <= i64::MAX
}

/// One pair of count and sum per distinct key.
pub open spec fn tally_values<K>(s: Seq<K>, w: Seq<i64>) -> Seq<(i64, i64)> {
    Seq::new(
        first_seen(s).len(),
        |i: int| (count_of(s, first_seen(s)[i]) as i64, sum_of(s, w, first_seen(s)[i]) as i64),
    )
}

/// Running counts and sums, one of each per distinct key.
pub struct Sums<K> {
    counts: Vec<i128>,
    sums: Vec<i128>,
    seen: Ghost<Seq<K>>,
    weights: Ghost<Seq<i64>>,
}

impl<K> Sums<K> {
    /// The keys that came, in order.
    pub closed spec fn seen(&self) -> Seq<K> {
        self.seen@
    }

    /// The weights that came with them.
    pub closed spec fn weights(&self) -> Seq<i64> {
        self.weights@
    }

    pub closed spec fn wf(&self) -> bool {
        let keys = first_seen(self.seen@);
        &&& self.weights@.len() == self.seen@.len()
        &&& self.counts@.len() == keys.len()
        &&& self.sums@.len() == keys.len()
        &&& forall|i: int| 0 <= i < keys.len() ==> #[trigger] self.counts@[i] == count_of(self.seen@, keys[i])
        &&& forall|i: int|
            0 <= i < keys.len() ==> #[trigger] self.sums@[i] == sum_of(self.seen@, self.weights@, keys[i])
    }

    pub proof fn lemma_lengths(&self)
        requires
            self.wf(),
        ensures
            self.weights().len() == self.seen().len(),
    {
    }

    pub fn new() -> (r: Sums<K>)
        ensures
            r.wf(),
            r.seen() == Seq::<K>::empty(),
            r.weights() == Seq::<i64>::empty(),
    {
        Sums { counts: Vec::new(), sums: Vec::new(), seen: Ghost(Seq::empty()), weights: Ghost(Seq::empty()) }
    }

    /// Adds one sample with the key `k`, which stands at position `i` of the table of
    /// distinct keys.
    pub fn add_at(&mut self, i: usize, k: Ghost<K>, weight: i64)
        requires
            old(self).wf(),
            old(self).seen().len() < u64::MAX,
            i < entered(first_seen(old(self).seen()), k@).len(),
            entered(first_seen(old(self).seen()), k@)[i as int] == k@,
        ensures
            final(self).wf(),
            final(self).seen() == old(self).seen().push(k@),
            final(self).weights() == old(self).weights().push(weight),
    {
        let ghost s0 = self.seen@;
        let ghost w0 = self.weights@;
        let ghost f0 = first_seen(s0);
        self.seen = Ghost(s0.push(k@));
        self.weights = Ghost(w0.push(weight));
        proof {
            assert(s0.push(k@).drop_last() =~= s0);
            assert(w0.push(weight).drop_last() =~= w0);
            lemma_first_seen(s0);
            lemma_bounds(s0, w0, k@);
        }
        if i == self.counts.len() {
            self.counts.push(1);
            self.sums.push(weight as i128);
            proof {
                if f0.contains(k@) {
                    assert(false);
                }
                lemma_absent(s0, w0, k@);
                assert forall|j: int| 0 <= j < f0.len() implies f0[j] != k@ by {
                    assert(f0.contains(f0[j]));
                }
            }
        } else {
            proof {
                if !f0.contains(k@) {
                    assert(f0[i as int] == k@);
                }
                lemma_position(f0, i as int);
            }
            assert(s0.len() * 0x8000_0000_0000_0000 < 0x7fff_ffff_ffff_ffff_ffff_ffff_ffff_ffff - 0x8000_0000_0000_0000) by (nonlinear_arith)
                requires
                    s0.len() < 0xffff_ffff_ffff_ffff,
            ;
            let c: i128 = self.counts[i] + 1;
            let t: i128 = self.sums[i] + weight as i128;
            self.counts[i] = c;
            self.sums[i] = t;
            proof {
                assert forall|j: int| 0 <= j < f0.len() && j != i implies f0[j] != k@ by {
                    lemma_position(f0, j);
                }
            }
        }
    }

    /// The counts and sums, unless one does not fit in 64 bits.
    pub fn finish(self) -> (r: Option<Vec<(i64, i64)>>)
        requires
            self.wf(),
        ensures
            match r {
                Some(v) => tally_fits(self.seen(), self.weights()) && v@ == tally_values(
                    self.seen(),
                    self.weights(),
                ),
                None => !tally_fits(self.seen(), self.weights()),
            },
    {
        let ghost s = self.seen@;
        let ghost w = self.weights@;
        let mut out: Vec<(i64, i64)> = Vec::new();
        for i in 0..self.counts.len()
            invariant
                self.wf(),
                s == self.seen@,
                w == self.weights@,
                out@ == tally_values(s, w).take(i as int),
                forall|j: int|
                    0 <= j < i ==> count_of(s, #[trigger] first_seen(s)[j]) <= i64::MAX && i64::MIN <= sum_of(
                        s,
                        w,
                        first_seen(s)[j],
                    ) <= i64::MAX,
        {
            let c: i128 = self.counts[i];
            let t: i128 = self.sums[i];
            proof {
                lemma_bounds(s, w, first_seen(s)[i as int]);
            }
            if c > i64::MAX as i128 || t < i64::MIN as i128 || t > i64::MAX as i128 {
                return None;
            }
            out.push((c as i64, t as i64));
            assert(out@ =~= tally_values(s, w).take(i + 1));
        }
        assert(tally_values(s, w).take(self.counts@.len() as int) =~= tally_values(s, w));
        Some(out)
    }
}

/// A pprof sample with a count and a sum.
pub open spec fn counted(location_id: Seq<u64>, value: (i64, i64)) -> SampleView {
    SampleView { location_id, value: seq![value.0, value.1], label: Seq::empty() }
}

/// One pprof sample per distinct stack, with its count and its sum.
pub open spec fn gathered(s: Seq<Seq<u64>>, w: Seq<i64>) -> Seq<SampleView> {
    Seq::new(first_seen(s).len(), |i: int| counted(first_seen(s)[i], tally_values(s, w)[i]))
}

/// A pprof sample with a count and a sum.
pub(crate) fn counted_sample(location_id: Vec<u64>, value: (i64, i64)) -> (r: Sample)
    ensures
        r@ == counted(location_id@, value),
{
    let mut v: Vec<i64> = Vec::new();
    v.push(value.0);
    v.push(value.1);
    let r = Sample { location_id, value: v, label: Vec::new() };
    assert(r@ =~= counted(location_id@, value));
    r
}

/// Samples gathered by stack.
pub struct StackTally {
    index: StackIndex,
    sums: Sums<Seq<u64>>,
}

impl StackTally {
    /// The stacks that came, in order.
    pub closed spec fn seen(&self) -> Seq<Seq<u64>> {
        self.sums.seen()
    }

    /// The weights that came with them.
    pub closed spec fn weights(&self) -> Seq<i64> {
        self.sums.weights()
    }

    pub closed spec fn wf(&self) -> bool {
        &&& self.index.wf()
        &&& self.sums.wf()
        &&& self.index.table() == first_seen(self.sums.seen())
    }

    pub proof fn lemma_lengths(&self)
        requires
            self.wf(),
        ensures
            self.weights().len() == self.seen().len(),
    {
        self.sums.lemma_lengths();
    }

    pub fn new() -> (r: StackTally)
        ensures
            r.wf(),
            r.seen() == Seq::<Seq<u64>>::empty(),
            r.weights() == Seq::<i64>::empty(),
    {
        StackTally { index: StackIndex::new(), sums: Sums::new() }
    }

    /// Takes in one sample.
    pub fn add(&mut self, stack: Vec<u64>, weight: i64)
        requires
            old(self).wf(),
            old(self).seen().len() < u64::MAX,
        ensures
            final(self).wf(),
            final(self).seen() == old(self).seen().push(stack@),
            final(self).weights() == old(self).weights().push(weight),
    {
        let ghost k = stack@;
        proof {
            self.index.lemma_table();
            law_entered(self.index.table(), k);
            assert(self.sums.seen().push(k).drop_last() =~= self.sums.seen());
        }
        let i: usize = self.index.enter(stack);
        self.sums.add_at(i, Ghost(k), weight);
    }

    /// The samples, unless a count or a sum does not fit in 64 bits.
    pub fn finish(self) -> (r: Option<Vec<Sample>>)
        requires
            self.wf(),
        ensures
            match r {
                Some(v) => tally_fits(self.seen(), self.weights()) && sample_views(v@) == gathered(
                    self.seen(),
                    self.weights(),
                ),
                None => !tally_fits(self.seen(), self.weights()),
            },
    {
        let ghost s = self.sums.seen();
        let ghost w = self.sums.weights();
        let values = match self.sums.finish() {
            Some(v) => v,
            None => {
                return None;
            },
        };
        let keys = self.index.keys;
        let mut out: Vec<Sample> = Vec::new();
        assert(sample_views(out@) =~= gathered(s, w).take(0));
        for i in 0..keys.len()
            invariant
                stacks(keys@) == first_seen(s),
                values@ == tally_values(s, w),
                sample_views(out@) == gathered(s, w).take(i as int),
        {
            assert(stacks(keys@)[i as int] == keys@[i as int]@);
            let copy = keys[i].clone();
            assert(copy@ =~= keys@[i as int]@);
            let one = counted_sample(copy, values[i]);
            let ghost done = out@;
            out.push(one);
            assert(sample_views(out@) =~= sample_views(done).push(one@));
            assert(sample_views(out@) =~= gathered(s, w).take(i + 1));
        }
        assert(gathered(s, w).take(keys@.len() as int) =~= gathered(s, w));
        Some(out)
    }
}

/// Samples gathered by a number.
pub struct NodeTally {
    index: NumberIndex,
    keys: Vec<i64>,
    sums: Sums<i64>,
}

impl NodeTally {
    /// The keys that came, in order.
    pub closed spec fn seen(&self) -> Seq<i64> {
        self.sums.seen()
    }

    /// The weights that came with them.
    pub closed spec fn weights(&self) -> Seq<i64> {
        self.sums.weights()
    }

    pub closed spec fn wf(&self) -> bool {
        &&& self.index.wf()
        &&& self.sums.wf()
        &&& self.index.table() == first_seen(self.sums.seen())
        &&& self.keys@ == self.index.table()
    }

    pub fn new() -> (r: NodeTally)
        ensures
            r.wf(),
            r.seen() == Seq::<i64>::empty(),
            r.weights() == Seq::<i64>::empty(),
    {
        NodeTally { index: NumberIndex::new(), keys: Vec::new(), sums: Sums::new() }
    }

    /// Takes in one sample.
    pub fn add(&mut self, key: i64, weight: i64)
        requires
            old(self).wf(),
            old(self).seen().len() < u64::MAX,
        ensures
            final(self).wf(),
            final(self).seen() == old(self).seen().push(key),
            final(self).weights() == old(self).weights().push(weight),
    {
        let ghost before = self.index.table();
        proof {
            self.index.lemma_table();
            law_entered(before, key);
            lemma_first_seen(self.sums.seen());
            assert(self.sums.seen().push(key).drop_last() =~= self.sums.seen());
        }
        let i: usize = match self.index.get(key) {
            Some(id) => {
                proof {
                    assert(0 <= before.index_of(key) < before.len());
                    assert(before.len() == self.keys.len());
                }
                (id - 1) as usize
            },
            None => {
                let n: usize = self.keys.len();
                self.keys.push(key);
                self.index.push(key, self.keys.len() as u64);
                n
            },
        };
        self.sums.add_at(i, Ghost(key), weight);
    }

    /// The keys in the order in which they first came, with their counts and sums,
    /// unless one of those does not fit in 64 bits.
    pub fn finish(self) -> (r: Option<(Vec<i64>, Vec<(i64, i64)>, NumberIndex)>)
        requires
            self.wf(),
        ensures
            match r {
                Some((keys, values, index)) => {
                    &&& tally_fits(self.seen(), self.weights())
                    &&& keys@ == first_seen(self.seen())
                    &&& values@ == tally_values(self.seen(), self.weights())
                    &&& index.wf()
                    &&& index.table() == keys@
                },
                None => !tally_fits(self.seen(), self.weights()),
            },
    {
        match self.sums.finish() {
            Some(values) => Some((self.keys, values, self.index)),
            None => None,
        }
    }
}

} // verus!

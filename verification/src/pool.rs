//! Tables in which an entry's position is its identity: what is entered twice keeps
//! its first place.
use vstd::prelude::*;
use std::collections::HashMap;
use vstd::hash_map::StringHashMap;
use vstd::string::{StrSliceExecFns, StringExecFns};
use crate::proto::texts;

verus! {

broadcast use vstd::std_specs::hash::group_hash_axioms;

/// The table with `k` in it: unchanged where `k` is there, else with `k` at its end.
pub open spec fn entered<K>(t: Seq<K>, k: K) -> Seq<K> {
    if t.contains(k) {
        t
    } else {
        t.push(k)
    }
}

/// The string table index of `s`.
pub open spec fn text_id(t: Seq<Seq<char>>, s: Seq<char>) -> i64 {
    t.index_of(s) as i64
}

/// The one-based place of `k`, which pprof tables use as an id.
pub open spec fn place<K>(t: Seq<K>, k: K) -> u64 {
    (t.index_of(k) + 1) as u64
}

/// What `place` and `text_id` rest on: in a table without repetition an entry has
/// one position.
pub proof fn lemma_position<K>(t: Seq<K>, i: int)
    requires
        t.no_duplicates(),
        0 <= i < t.len(),
    ensures
        t.contains(t[i]),
        t.index_of(t[i]) == i,
{
    assert(t.contains(t[i]));
}

/// Entering keeps the table free of repetition, keeps every position, and puts `k`
/// in.
pub proof fn law_entered<K>(t: Seq<K>, k: K)
    requires
        t.no_duplicates(),
    ensures
        entered(t, k).no_duplicates(),
        entered(t, k).contains(k),
        t.len() <= entered(t, k).len() <= t.len() + 1,
        entered(t, k).take(t.len() as int) == t,
        entered(entered(t, k), k) == entered(t, k),
        forall|x: K| #[trigger] t.contains(x) ==> entered(t, k).contains(x) && entered(t, k).index_of(x) == t.index_of(x),
        0 <= entered(t, k).index_of(k) < entered(t, k).len(),
        entered(t, k)[entered(t, k).index_of(k)] == k,
{
    let u = entered(t, k);
    assert(u.take(t.len() as int) =~= t);
    if !t.contains(k) {
        assert(u[t.len() as int] == k);
    }
    assert(u.contains(k));
    assert forall|x: K| #[trigger] t.contains(x) implies u.contains(x) && u.index_of(x) == t.index_of(x) by {
        let i = t.index_of(x);
        assert(u[i] == x);
        lemma_position(u, i);
        lemma_position(t, i);
    }
}

/// Whether `b` is `a` with entries added at its end.
pub open spec fn extends<K>(a: Seq<K>, b: Seq<K>) -> bool {
    a.len() <= b.len() && b.take(a.len() as int) == a
}

/// What is in a table keeps its place when entries are added.
pub proof fn law_place_kept<K>(a: Seq<K>, b: Seq<K>, k: K)
    requires
        extends(a, b),
        b.no_duplicates(),
        a.contains(k),
    ensures
        b.contains(k),
        a.index_of(k) == b.index_of(k),
        place(a, k) == place(b, k),
{
    let i = a.index_of(k);
    assert(b.take(a.len() as int)[i] == b[i]);
    lemma_position(b, i);
}

pub proof fn lemma_extends_trans<K>(a: Seq<K>, b: Seq<K>, c: Seq<K>)
    requires
        extends(a, b),
        extends(b, c),
    ensures
        extends(a, c),
{
    assert(c.take(a.len() as int) =~= b.take(a.len() as int));
}

/// A text that stands for two: a mark per character of `a`, a bar, then `a` and `b`.
pub open spec fn pair_key(a: Seq<char>, b: Seq<char>) -> Seq<char> {
    Seq::new(a.len(), |i: int| '.') + seq!['|'] + a + b
}

/// Different pairs have different keys.
pub proof fn law_pair_key_injective(a: Seq<char>, b: Seq<char>, c: Seq<char>, d: Seq<char>)
    requires
        pair_key(a, b) == pair_key(c, d),
    ensures
        a == c,
        b == d,
{
    let p = pair_key(a, b);
    let q = pair_key(c, d);
    assert(p[a.len() as int] == '|');
    assert(q[c.len() as int] == '|');
    if a.len() < c.len() {
        assert(q[a.len() as int] == '.');
    }
    if c.len() < a.len() {
        assert(p[c.len() as int] == '.');
    }
    let n = a.len() as int;
    assert(a =~= p.subrange(n + 1, 2 * n + 1));
    assert(c =~= q.subrange(n + 1, 2 * n + 1));
    assert(b =~= p.skip(2 * n + 1));
    assert(d =~= q.skip(2 * n + 1));
}

/// The key of two texts.
pub fn key_of_pair(a: &str, b: &str) -> (r: String)
    ensures
        r@ == pair_key(a@, b@),
{
    let n: usize = a.unicode_len();
    let mut r = String::new();
    let ghost dots = Seq::new(a@.len(), |i: int| '.');
    for i in 0..n
        invariant
            n == a@.len(),
            dots == Seq::new(a@.len(), |i: int| '.'),
            r@ == dots.take(i as int),
    {
        r.push('.');
        assert(r@ =~= dots.take(i + 1));
    }
    assert(r@ =~= dots);
    r.push('|');
    r.append(a);
    r.append(b);
    assert(r@ =~= pair_key(a@, b@));
    r
}

/// A pprof string table: index 0 is the empty string, and no string occurs twice.
pub struct StringPool {
    strings: Vec<String>,
    index: StringHashMap<i64>,
}

impl StringPool {
    /// The table as text.
    pub closed spec fn table(&self) -> Seq<Seq<char>> {
        texts(self.strings@)
    }

    pub closed spec fn wf(&self) -> bool {
        &&& self.table().no_duplicates()
        &&& self.table().len() > 0
        &&& self.table()[0] == Seq::<char>::empty()
        &&& forall|s: Seq<char>| #[trigger] self.index@.contains_key(s) <==> self.table().contains(s)
        &&& forall|s: Seq<char>| #[trigger]
            self.index@.contains_key(s) ==> self.index@[s] == text_id(self.table(), s)
    }

    /// What holds of every string table.
    pub proof fn lemma_table(&self)
        requires
            self.wf(),
        ensures
            self.table().no_duplicates(),
            self.table().len() > 0,
            self.table()[0] == Seq::<char>::empty(),
    {
    }

    /// The table that holds the empty string alone.
    pub fn new() -> (r: StringPool)
        ensures
            r.wf(),
            r.table() == seq![Seq::<char>::empty()],
    {
        let mut strings: Vec<String> = Vec::new();
        let mut index = StringHashMap::new();
        strings.push(String::new());
        index.insert(String::new(), 0);
        let r = StringPool { strings, index };
        proof {
            assert(r.table() =~= seq![Seq::<char>::empty()]);
            lemma_position(r.table(), 0);
        }
        r
    }

    /// The index of `s`, which is put at the end of the table where it is new.
    pub fn intern(&mut self, s: &str) -> (id: i64)
        requires
            old(self).wf(),
        ensures
            final(self).wf(),
            final(self).table() == entered(old(self).table(), s@),
            id == text_id(final(self).table(), s@),
    {
        if let Some(id) = self.index.get(s) {
            return *id;
        }
        let id: i64 = self.strings.len() as i64;
        let ghost before = self.table();
        self.strings.push(s.to_owned());
        self.index.insert(s.to_owned(), id);
        proof {
            assert(self.table() =~= before.push(s@));
            law_entered(before, s@);
            lemma_position(self.table(), before.len() as int);
            assert forall|x: Seq<char>| #[trigger] self.index@.contains_key(x) <==> self.table().contains(x) by {
                if self.table().contains(x) && x != s@ {
                    let i = self.table().index_of(x);
                    assert(before[i] == x);
                }
            }
        }
        id
    }

    /// The table itself.
    pub fn into_strings(self) -> (r: Vec<String>)
        ensures
            texts(r@) == self.table(),
    {
        self.strings
    }
}

/// Ids by text: the one-based places of keys in a table without repetition.
pub struct TextIndex {
    ids: StringHashMap<u64>,
    keys: Ghost<Seq<Seq<char>>>,
}

impl TextIndex {
    /// The keys in the order in which they came.
    pub closed spec fn table(&self) -> Seq<Seq<char>> {
        self.keys@
    }

    pub closed spec fn wf(&self) -> bool {
        &&& self.keys@.no_duplicates()
        &&& forall|s: Seq<char>| #[trigger] self.ids@.contains_key(s) <==> self.keys@.contains(s)
        &&& forall|s: Seq<char>| #[trigger]
            self.ids@.contains_key(s) ==> self.ids@[s] == place(self.keys@, s)
    }

    pub proof fn lemma_table(&self)
        requires
            self.wf(),
        ensures
            self.table().no_duplicates(),
    {
    }

    pub fn new() -> (r: TextIndex)
        ensures
            r.wf(),
            r.table() == Seq::<Seq<char>>::empty(),
    {
        TextIndex { ids: StringHashMap::new(), keys: Ghost(Seq::empty()) }
    }

    /// The id of a key that is there.
    pub fn get(&self, key: &str) -> (r: Option<u64>)
        requires
            self.wf(),
        ensures
            match r {
                Some(id) => self.table().contains(key@) && id == place(self.table(), key@),
                None => !self.table().contains(key@),
            },
    {
        match self.ids.get(key) {
            Some(id) => Some(*id),
            None => None,
        }
    }

    /// Puts a new key at the end, under the next id.
    pub fn push(&mut self, key: String, id: u64)
        requires
            old(self).wf(),
            !old(self).table().contains(key@),
            id == old(self).table().len() + 1,
        ensures
            final(self).wf(),
            final(self).table() == old(self).table().push(key@),
    {
        let ghost before = self.keys@;
        let ghost k = key@;
        self.ids.insert(key, id);
        self.keys = Ghost(before.push(k));
        proof {
            law_entered(before, k);
            lemma_position(before.push(k), before.len() as int);
            assert forall|x: Seq<char>| #[trigger] self.ids@.contains_key(x) <==> self.keys@.contains(x) by {
                if self.keys@.contains(x) && x != k {
                    let i = self.keys@.index_of(x);
                    assert(before[i] == x);
                }
            }
        }
    }
}

/// Ids by number: the one-based places of keys in a table without repetition.
pub struct NumberIndex {
    ids: HashMap<i64, u64>,
    keys: Ghost<Seq<i64>>,
}

impl NumberIndex {
    /// The keys in the order in which they came.
    pub closed spec fn table(&self) -> Seq<i64> {
        self.keys@
    }

    pub closed spec fn wf(&self) -> bool {
        &&& self.keys@.no_duplicates()
        &&& forall|k: i64| #[trigger] self.ids@.contains_key(k) <==> self.keys@.contains(k)
        &&& forall|k: i64| #[trigger]
            self.ids@.contains_key(k) ==> self.ids@[k] == place(self.keys@, k)
    }

    pub proof fn lemma_table(&self)
        requires
            self.wf(),
        ensures
            self.table().no_duplicates(),
    {
    }

    pub fn new() -> (r: NumberIndex)
        ensures
            r.wf(),
            r.table() == Seq::<i64>::empty(),
    {
        NumberIndex { ids: HashMap::new(), keys: Ghost(Seq::empty()) }
    }

    /// The id of a key that is there.
    pub fn get(&self, key: i64) -> (r: Option<u64>)
        requires
            self.wf(),
        ensures
            match r {
                Some(id) => self.table().contains(key) && id == place(self.table(), key),
                None => !self.table().contains(key),
            },
    {
        match self.ids.get(&key) {
            Some(id) => Some(*id),
            None => None,
        }
    }

    /// Puts a new key at the end, under the next id.
    pub fn push(&mut self, key: i64, id: u64)
        requires
            old(self).wf(),
            !old(self).table().contains(key),
            id == old(self).table().len() + 1,
        ensures
            final(self).wf(),
            final(self).table() == old(self).table().push(key),
    {
        let ghost before = self.keys@;
        self.ids.insert(key, id);
        self.keys = Ghost(before.push(key));
        proof {
            law_entered(before, key);
            lemma_position(before.push(key), before.len() as int);
            assert forall|x: i64| #[trigger] self.ids@.contains_key(x) <==> self.keys@.contains(x) by {
                if self.keys@.contains(x) && x != key {
                    let i = self.keys@.index_of(x);
                    assert(before[i] == x);
                }
            }
        }
    }
}

} // verus!

//! Where the locations of a profile lead: through a line to a function and its texts.
use vstd::prelude::*;
use crate::pool::{entered, extends, law_entered, text_id};
use crate::proto::{Line, ProfileView};
use crate::tables::{
    lemma_function_grows, lemma_with_function, lemma_with_text, tables_ok, with_function, with_text,
    TablesView,
};
use crate::tally::{count_of, first_seen, lemma_first_seen, sum_of};

verus! {

/// Whether the string at an index is this text.
pub open spec fn says(p: ProfileView, index: i64, text: Seq<char>) -> bool {
    0 <= index < p.string_table.len() && p.string_table[index as int] == text
}

/// Whether a line is one of a function with this name and this file.
pub open spec fn line_leads_to(p: ProfileView, line: Line, name: Seq<char>, file: Seq<char>) -> bool {
    let id = line.function_id;
    &&& 1 <= id <= p.function.len()
    &&& p.function[id - 1].id == id
    &&& says(p, p.function[id - 1].name, name)
    &&& says(p, p.function[id - 1].filename, file)
}

/// Whether a location has one line, which is that of a function with this name and file.
pub open spec fn leads_to(p: ProfileView, id: u64, name: Seq<char>, file: Seq<char>, line: int) -> bool {
    &&& 1 <= id <= p.location.len()
    &&& p.location[id - 1].id == id
    &&& p.location[id - 1].line.len() == 1
    &&& p.location[id - 1].line[0].line == line
    &&& line_leads_to(p, p.location[id - 1].line[0], name, file)
}

/// The name of a function of the tables.
pub open spec fn name_of(t: TablesView, i: int) -> Seq<char> {
    t.strings[t.functions[i].name as int]
}

/// The name of a function of the tables as it was found.
pub open spec fn system_of(t: TablesView, i: int) -> Seq<char> {
    t.strings[t.functions[i].system_name as int]
}

/// The file of a function of the tables.
pub open spec fn file_of(t: TablesView, i: int) -> Seq<char> {
    t.strings[t.functions[i].filename as int]
}

/// Whether a function has the same texts in grown tables.
pub open spec fn texts_kept(t: TablesView, u: TablesView, i: int) -> bool {
    &&& u.functions[i] == t.functions[i]
    &&& name_of(u, i) == name_of(t, i)
    &&& system_of(u, i) == system_of(t, i)
    &&& file_of(u, i) == file_of(t, i)
}

pub proof fn lemma_extended_text(a: Seq<Seq<char>>, b: Seq<Seq<char>>, i: int)
    requires
        extends(a, b),
        0 <= i < a.len(),
    ensures
        i < b.len(),
        b[i] == a[i],
{
    assert(b.take(a.len() as int)[i] == b[i]);
}

pub proof fn lemma_entered_text(a: Seq<Seq<char>>, b: Seq<Seq<char>>, s: Seq<char>)
    requires
        extends(a, b),
        a.contains(s),
        a.no_duplicates(),
        b.len() <= i64::MAX,
    ensures
        0 <= text_id(a, s) < b.len(),
        b[text_id(a, s) as int] == s,
{
    let i = a.index_of(s);
    assert(0 <= i < a.len() && a[i] == s);
    lemma_extended_text(a, b, i);
}

/// Functions keep their texts in tables with more strings.
pub proof fn lemma_texts_kept(t: TablesView, u: TablesView)
    requires
        tables_ok(t),
        extends(t.strings, u.strings),
        extends(t.functions, u.functions),
        u.strings.len() <= i64::MAX,
    ensures
        forall|i: int| 0 <= i < t.functions.len() ==> #[trigger] texts_kept(t, u, i),
{
    assert forall|i: int| 0 <= i < t.functions.len() implies #[trigger] texts_kept(t, u, i) by {
        let f = t.functions[i];
        assert(u.functions.take(t.functions.len() as int)[i] == u.functions[i]);
        assert(t.strings.len() <= u.strings.len());
        lemma_extended_text(t.strings, u.strings, f.name as int);
        lemma_extended_text(t.strings, u.strings, f.system_name as int);
        lemma_extended_text(t.strings, u.strings, f.filename as int);
    }
}

/// A function that is entered has the texts that were given for it, and the others keep
/// theirs.
pub proof fn lemma_function_texts(
    t: TablesView,
    key: Seq<char>,
    name: Seq<char>,
    system_name: Seq<char>,
    filename: Seq<char>,
    start_line: i64,
)
    requires
        tables_ok(t),
        t.functions.len() < u64::MAX,
        with_function(t, key, name, system_name, filename, start_line).strings.len() <= i64::MAX,
    ensures
        ({
            let u = with_function(t, key, name, system_name, filename, start_line);
            let n = t.functions.len() as int;
            &&& forall|i: int| 0 <= i < n ==> #[trigger] texts_kept(t, u, i)
            &&& !t.keys.contains(key) ==> u.functions.len() == n + 1 && name_of(u, n) == name && system_of(u, n)
                == system_name && file_of(u, n) == filename && u.functions[n].start_line == start_line
        }),
{
    let u = with_function(t, key, name, system_name, filename, start_line);
    let n = t.functions.len() as int;
    lemma_with_function(t, key, name, system_name, filename, start_line);
    lemma_function_grows(t, key, name, system_name, filename, start_line);
    assert(u.functions.take(n) =~= t.functions);
    lemma_texts_kept(t, u);
    if !t.keys.contains(key) {
        let s1 = entered(t.strings, name);
        let s2 = entered(s1, system_name);
        let s3 = entered(s2, filename);
        law_entered(t.strings, name);
        law_entered(s1, system_name);
        law_entered(s2, filename);
        assert(s3.take(s3.len() as int) =~= s3);
        assert(s3.contains(name) && s3.contains(system_name) && s3.contains(filename));
        lemma_entered_text(s3, s3, name);
        lemma_entered_text(s3, s3, system_name);
        lemma_entered_text(s3, s3, filename);
    }
}

/// Functions keep their texts when a text is entered.
pub proof fn lemma_text_entered(t: TablesView, s: Seq<char>)
    requires
        tables_ok(t),
        with_text(t, s).strings.len() <= i64::MAX,
    ensures
        forall|i: int| 0 <= i < t.functions.len() ==> #[trigger] texts_kept(t, with_text(t, s), i),
        with_text(t, s).strings[text_id(with_text(t, s).strings, s) as int] == s,
        0 <= text_id(with_text(t, s).strings, s) < with_text(t, s).strings.len(),
        extends(t.strings, with_text(t, s).strings),
{
    let u = with_text(t, s);
    law_entered(t.strings, s);
    lemma_with_text(t, s);
    assert(u.functions.take(t.functions.len() as int) =~= t.functions);
    lemma_texts_kept(t, u);
    assert(u.strings.take(u.strings.len() as int) =~= u.strings);
    lemma_entered_text(u.strings, u.strings, s);
}

/// A count is the number of places at which a key stands.
pub proof fn law_count_is_number_of_places<K>(s: Seq<K>, k: K)
    ensures
        Set::<int>::new(|i: int| 0 <= i < s.len() && s[i] == k).finite(),
        count_of(s, k) == Set::<int>::new(|i: int| 0 <= i < s.len() && s[i] == k).len(),
    decreases s.len(),
{
    let a = Set::<int>::new(|i: int| 0 <= i < s.len() && s[i] == k);
    if s.len() == 0 {
        assert(a =~= Set::empty());
    } else {
        let front = s.drop_last();
        let n = s.len() - 1;
        let b = Set::<int>::new(|i: int| 0 <= i < front.len() && front[i] == k);
        law_count_is_number_of_places(front, k);
        if s[n] == k {
            assert(a =~= b.insert(n));
        } else {
            assert(a =~= b);
        }
    }
}

/// One more sample adds its weight to the sum of its own key, wherever it stands, and to no
/// other.
pub proof fn law_weight_goes_to_its_key<K>(s: Seq<K>, w: Seq<i64>, at: int, more: i64, k: K)
    requires
        s.len() == w.len(),
        0 <= at < s.len(),
    ensures
        sum_of(s, w.update(at, more), k) - sum_of(s, w, k) == if k == s[at] {
            more - w[at]
        } else {
            0
        },
        (forall|i: int| 0 <= i < w.len() ==> #[trigger] w[i] == 0) ==> sum_of(s, w, k) == 0,
    decreases s.len(),
{
    let n = s.len() - 1;
    let v = w.update(at, more);
    if at == n {
        assert(v.drop_last() =~= w.drop_last());
        if n > 0 {
            law_weight_goes_to_its_key(s.drop_last(), w.drop_last(), 0, 0, k);
        }
        if forall|i: int| 0 <= i < w.len() ==> #[trigger] w[i] == 0 {
            assert(w[n] == 0);
            assert forall|i: int| 0 <= i < n implies #[trigger] w.drop_last()[i] == 0 by {
                assert(w[i] == 0);
            }
        }
    } else {
        assert(v.drop_last() =~= w.drop_last().update(at, more));
        law_weight_goes_to_its_key(s.drop_last(), w.drop_last(), at, more, k);
        if forall|i: int| 0 <= i < w.len() ==> #[trigger] w[i] == 0 {
            assert(w[n] == 0);
            assert forall|i: int| 0 <= i < n implies #[trigger] w.drop_last()[i] == 0 by {
                assert(w[i] == 0);
            }
        }
    }
}

/// Each key stands once, the keys are those that came, and they stand in the order in which
/// they first came.
pub proof fn law_keys_in_order<K>(s: Seq<K>)
    ensures
        first_seen(s).no_duplicates(),
        forall|k: K| #[trigger] first_seen(s).contains(k) <==> s.contains(k),
        forall|a: int, b: int|
            0 <= a < b < first_seen(s).len() ==> s.index_of_first(#[trigger] first_seen(s)[a]).unwrap()
                < s.index_of_first(#[trigger] first_seen(s)[b]).unwrap(),
    decreases s.len(),
{
    lemma_first_seen(s);
    if s.len() > 0 {
        let front = s.drop_last();
        let f = first_seen(front);
        law_keys_in_order(front);
        law_entered(f, s.last());
        let all = first_seen(s);
        assert forall|a: int, b: int| 0 <= a < b < all.len() implies s.index_of_first(#[trigger] all[a]).unwrap()
            < s.index_of_first(#[trigger] all[b]).unwrap() by {
            assert(all[a] == f[a]);
            assert(f.contains(f[a]));
            assert(front.contains(f[a]));
            lemma_first_in_front(s, f[a]);
            if b < f.len() {
                assert(all[b] == f[b]);
                assert(f.contains(f[b]));
                assert(front.contains(f[b]));
                lemma_first_in_front(s, f[b]);
                assert(front.index_of_first(f[a]).unwrap() < front.index_of_first(f[b]).unwrap());
            } else {
                assert(all[b] == s.last());
                assert(!f.contains(s.last()));
                assert(!front.contains(s.last()));
                assert(s[s.len() - 1] == s.last());
                s.index_of_first_ensures(s.last());
                let i = s.index_of_first(s.last()).unwrap();
                if i < s.len() - 1 {
                    assert(front[i] == s.last());
                }
            }
        }
    }
}

proof fn lemma_first_in_front<K>(s: Seq<K>, k: K)
    requires
        s.len() > 0,
        s.drop_last().contains(k),
    ensures
        s.index_of_first(k) == s.drop_last().index_of_first(k),
        s.index_of_first(k) is Some,
        s.index_of_first(k).unwrap() < s.len() - 1,
{
    let front = s.drop_last();
    let j = choose|j: int| 0 <= j < front.len() && front[j] == k;
    assert(s[j] == k);
    s.index_of_first_ensures(k);
    front.index_of_first_ensures(k);
    let a = s.index_of_first(k).unwrap();
    let b = front.index_of_first(k).unwrap();
    assert(s[b] == k);
    if a < b {
        assert(front[a] == k);
    }
    if b < a {
        assert(s.take(a)[b] == s[b]);
        assert(s.take(a).contains(k));
    }
}

} // verus!

//! What becomes of symbols that follow the mangling scheme.
use vstd::prelude::*;
use crate::demangle::{
    demangled, is_ident, letters_before, longest_segment, segment_fits, segments, without_generics,
};
use crate::text::{dec, join, strip_leading};

verus! {

/// A letter of either case, a digit or an underscore.
pub open spec fn is_word_char(c: char) -> bool {
    ||| 'a' <= c <= 'z'
    ||| 'A' <= c <= 'Z'
    ||| '0' <= c <= '9'
    ||| c == '_'
}

/// A name: such characters, the first of them no digit.
pub open spec fn is_name(s: Seq<char>) -> bool {
    &&& s.len() > 0
    &&& !('0' <= s[0] <= '9')
    &&& forall|i: int| 0 <= i < s.len() ==> is_word_char(#[trigger] s[i])
}

/// Names, each behind its length in decimal.
pub open spec fn mangled_names(names: Seq<Seq<char>>) -> Seq<char>
    decreases names.len(),
{
    if names.len() == 0 {
        Seq::empty()
    } else {
        mangled_names(names.drop_last()) + dec(names.last().len()) + names.last()
    }
}

/// Names with two colons between them.
pub open spec fn path_of(names: Seq<Seq<char>>) -> Seq<char>
    decreases names.len(),
{
    if names.len() == 0 {
        Seq::empty()
    } else if names.len() == 1 {
        names[0]
    } else {
        names[0] + seq![':', ':'] + path_of(names.drop_first())
    }
}

/// Whether a text ends in a name of `n` characters that stands behind `n` in decimal.
pub open spec fn ends_in_name(s: Seq<char>, n: nat) -> bool {
    let d = dec(n);
    &&& n + d.len() <= s.len()
    &&& is_name(s.skip(s.len() - n))
    &&& s.subrange(s.len() - n - d.len(), s.len() - n) == d
}

/// The mark of a generic instantiation: a `G`, letters other than `G`, an `E`.
pub open spec fn is_generic_mark(s: Seq<char>) -> bool {
    &&& s.len() >= 2
    &&& s[0] == 'G'
    &&& s.last() == 'E'
    &&& forall|i: int|
        0 < i < s.len() - 1 ==> ('a' <= #[trigger] s[i] <= 'z' || 'A' <= s[i] <= 'Z') && s[i] != 'G'
}

/// Underscores.
pub open spec fn underscores(n: nat) -> Seq<char> {
    Seq::new(n, |i: int| '_')
}

/// Whether names can be read behind `head` in one way only: what precedes the first one ends
/// in no name, and what ends in one of them ends in no longer name.
pub open spec fn reads_uniquely(head: Seq<char>, names: Seq<Seq<char>>) -> bool {
    &&& forall|n: nat| 0 < n <= 64 ==> !#[trigger] ends_in_name(head, n)
    &&& forall|k: int, n: nat|
        0 <= k < names.len() && names[k].len() < n <= 64 ==> !#[trigger] ends_in_name(
            head + mangled_names(names.take(k + 1)),
            n,
        )
}

proof fn lemma_fits(s: Seq<char>, i: int, n: nat)
    requires
        0 <= i <= s.len(),
        n > 0,
    ensures
        segment_fits(s, i, n as int) <==> ends_in_name(s.take(i), n),
{
    let t = s.take(i);
    let d = dec(n);
    lemma_dec_some(n);
    if n + d.len() <= i {
        assert(t.skip(t.len() - n) =~= s.subrange(i - n, i));
        assert(t.subrange(t.len() - n - d.len(), t.len() - n) =~= s.subrange(i - n - d.len(), i - n));
        let x = s.subrange(i - n, i);
        if is_ident(x) {
            assert forall|j: int| 0 <= j < x.len() implies is_word_char(#[trigger] x[j]) by {}
        }
        if is_name(x) {
            assert forall|j: int| 0 <= j < x.len() implies #[trigger] x[j] == '_' || crate::text::is_letter(x[j])
                || crate::text::is_digit(x[j]) by {
                assert(is_word_char(x[j]));
            }
        }
    }
}

proof fn lemma_dec_some(n: nat)
    ensures
        dec(n).len() > 0,
{
}

proof fn lemma_longest(s: Seq<char>, i: int, n: nat, top: nat)
    requires
        0 <= i <= s.len(),
        forall|m: nat| n < m <= top ==> !#[trigger] ends_in_name(s.take(i), m),
        n <= top,
        n > 0 ==> ends_in_name(s.take(i), n),
    ensures
        longest_segment(s, i, top as int) == if n == 0 {
            None
        } else {
            Some(n as int)
        },
    decreases top,
{
    if top > n {
        lemma_fits(s, i, top);
        assert(!ends_in_name(s.take(i), top));
        lemma_longest(s, i, n, (top - 1) as nat);
    } else if n > 0 {
        lemma_fits(s, i, n);
    }
}

/// The names are read off one after the other.
proof fn lemma_segments(head: Seq<char>, names: Seq<Seq<char>>, k: int, limit: int)
    requires
        0 <= k <= names.len(),
        k <= limit,
        reads_uniquely(head, names),
        forall|i: int| 0 <= i < names.len() ==> is_name(#[trigger] names[i]) && names[i].len() <= 64,
    ensures
        segments(
            head + mangled_names(names),
            (head + mangled_names(names.take(k))).len() as int,
            limit,
        ) == names.take(k),
    decreases k,
{
    let s = head + mangled_names(names);
    let here = head + mangled_names(names.take(k));
    let i = here.len() as int;
    lemma_prefix(names, k);
    assert(s.take(i) =~= here);
    if k == 0 {
        assert(here =~= head);
        lemma_longest(s, i, 0, 64);
        assert(names.take(0) =~= Seq::empty());
    } else {
        let name = names[k - 1];
        let n = name.len();
        assert(is_name(names[k - 1]));
        assert(names.take(k).drop_last() =~= names.take(k - 1));
        assert(names.take(k).last() == name);
        let before = head + mangled_names(names.take(k - 1));
        assert(here =~= before + dec(n) + name);
        assert(here.skip(here.len() - n) =~= name);
        assert(here.subrange(here.len() - n - dec(n).len(), here.len() - n) =~= dec(n));
        assert(ends_in_name(s.take(i), n));
        assert forall|m: nat| n < m <= 64 implies !#[trigger] ends_in_name(s.take(i), m) by {
            assert(names[k - 1].len() < m);
            assert(!ends_in_name(head + mangled_names(names.take(k - 1 + 1)), m));
        }
        lemma_longest(s, i, n, 64);
        lemma_segments(head, names, k - 1, limit - 1);
        assert(i - n - dec(n).len() == before.len());
        assert(s.subrange(i - n, i) =~= name) by {
            assert(s.take(i) == here);
            assert forall|j: int| 0 <= j < n implies s.subrange(i - n, i)[j] == name[j] by {
                assert(s.take(i)[i - n + j] == here[i - n + j]);
            }
        }
        assert(names.take(k - 1).push(name) =~= names.take(k));
    }
}

proof fn lemma_prefix(names: Seq<Seq<char>>, k: int)
    requires
        0 <= k <= names.len(),
    ensures
        mangled_names(names.take(k)).len() <= mangled_names(names).len(),
        mangled_names(names).take(mangled_names(names.take(k)).len() as int) == mangled_names(names.take(k)),
    decreases names.len(),
{
    if k < names.len() {
        let front = names.drop_last();
        lemma_prefix(front, k);
        assert(front.take(k) =~= names.take(k));
        let a = mangled_names(front);
        let n = mangled_names(names.take(k)).len() as int;
        assert(mangled_names(names).take(n) =~= a.take(n));
    } else {
        assert(names.take(k) =~= names);
        assert(mangled_names(names).take(mangled_names(names).len() as int) =~= mangled_names(names));
    }
}

proof fn lemma_path(names: Seq<Seq<char>>)
    ensures
        join(names, seq![':', ':']) == path_of(names),
    decreases names.len(),
{
    let sep = seq![':', ':'];
    if names.len() == 1 {
        assert(names.drop_last() =~= Seq::empty());
        assert(join(names, sep) =~= names[0]);
    } else if names.len() > 1 {
        lemma_path(names.drop_first());
        lemma_join_first(names);
    } else {
        assert(join(names, sep) =~= path_of(names));
    }
}

proof fn lemma_join_first(parts: Seq<Seq<char>>)
    requires
        parts.len() > 1,
    ensures
        join(parts, seq![':', ':']) == parts[0] + seq![':', ':'] + join(parts.drop_first(), seq![':', ':']),
    decreases parts.len(),
{
    let sep = seq![':', ':'];
    let front = parts.drop_last();
    if parts.len() == 2 {
        assert(front.drop_last() =~= Seq::empty());
        assert(parts.drop_first().drop_last() =~= Seq::empty());
        assert(join(front, sep) =~= parts[0]);
        assert(join(parts.drop_first(), sep) =~= parts[1]);
    } else {
        lemma_join_first(front);
        assert(front.drop_first() =~= parts.drop_first().drop_last());
        assert(join(parts, sep) =~= parts[0] + sep + join(parts.drop_first(), sep));
    }
}

proof fn lemma_underscores(n: nat, s: Seq<char>)
    requires
        s.len() > 0,
        s[0] != '_',
    ensures
        strip_leading(underscores(n) + s, '_') == s,
    decreases n,
{
    let t = underscores(n) + s;
    if n == 0 {
        assert(t =~= s);
    } else {
        assert(t[0] == '_');
        assert(t.drop_first() =~= underscores((n - 1) as nat) + s);
        lemma_underscores((n - 1) as nat, s);
    }
}

proof fn lemma_letters(s: Seq<char>, g: int, i: int)
    requires
        0 <= g < i <= s.len(),
        s[g] == 'G',
        forall|j: int| g < j < i ==> ('a' <= #[trigger] s[j] <= 'z' || 'A' <= s[j] <= 'Z') && s[j] != 'G',
    ensures
        letters_before(s, i) == i - g - 1,
    decreases i,
{
    if i - 1 > g {
        assert('a' <= s[i - 1] <= 'z' || 'A' <= s[i - 1] <= 'Z');
        lemma_letters(s, g, i - 1);
    }
}

proof fn lemma_generic(s: Seq<char>, mark: Seq<char>)
    requires
        s.len() > 0,
        is_generic_mark(mark),
    ensures
        without_generics(s + mark) == s,
{
    let t = s + mark;
    let g = s.len() as int;
    let end = t.len() as int;
    assert(t[g] == 'G');
    assert(t[end - 1] == mark.last());
    assert forall|j: int| g < j < end - 1 implies ('a' <= #[trigger] t[j] <= 'z' || 'A' <= t[j] <= 'Z') && t[j]
        != 'G' by {
        assert(t[j] == mark[j - g]);
    }
    lemma_letters(t, g, end - 1);
    assert(t.take(g) =~= s);
}

proof fn lemma_letters_are(s: Seq<char>, i: int)
    requires
        0 <= i <= s.len(),
    ensures
        letters_before(s, i) <= i,
        forall|j: int|
            i - letters_before(s, i) <= j < i ==> ('a' <= #[trigger] s[j] <= 'z' || 'A' <= s[j] <= 'Z') && s[j] != 'G',
    decreases i,
{
    if 0 < i && crate::text::is_letter(s[i - 1]) && s[i - 1] != 'G' {
        lemma_letters_are(s, i - 1);
    }
}

proof fn lemma_no_generic(s: Seq<char>)
    requires
        forall|g: int| 0 <= g < s.len() ==> !is_generic_mark(#[trigger] s.skip(g)),
    ensures
        without_generics(s) == s,
{
    let end = s.len() as int;
    if end >= 3 && s[end - 1] == 'E' {
        lemma_letters_are(s, end - 1);
        let i = end - 1 - letters_before(s, end - 1);
        if i > 0 && s[i - 1] == 'G' {
            let m = s.skip(i - 1);
            assert forall|j: int| 0 < j < m.len() - 1 implies ('a' <= #[trigger] m[j] <= 'z' || 'A' <= m[j] <= 'Z')
                && m[j] != 'G' by {
                assert(m[j] == s[i - 1 + j]);
            }
            assert(is_generic_mark(s.skip(i - 1)));
        }
    }
}

/// A symbol that is made of a mangling prefix and names behind their lengths is demangled to
/// exactly these names with two colons between them, whatever letters they hold. Underscores
/// before the prefix and the mark of a generic instantiation at the end are dropped. Left out
/// are symbols whose names can also be read as longer ones, or whose last name ends like such
/// a mark.
pub proof fn law_names_joined(lead: nat, head: Seq<char>, names: Seq<Seq<char>>, mark: Seq<char>)
    requires
        head.len() >= 3,
        head[0] == 'M',
        head[1] == '0',
        'A' <= head[2] <= 'Z',
        0 < names.len() <= 50,
        forall|i: int| 0 <= i < names.len() ==> is_name(#[trigger] names[i]) && names[i].len() <= 64,
        reads_uniquely(head, names),
        is_generic_mark(mark) || (mark.len() == 0 && forall|g: int|
            0 <= g < (head + mangled_names(names)).len() ==> !is_generic_mark(
                #[trigger] (head + mangled_names(names)).skip(g),
            )),
    ensures
        demangled(underscores(lead) + (head + mangled_names(names) + mark)) == path_of(names),
{
    let s = head + mangled_names(names);
    let t = s + mark;
    assert(t[0] == 'M' && t[1] == '0' && t[2] == head[2]);
    lemma_underscores(lead, t);
    if mark.len() == 0 {
        assert(t =~= s);
        lemma_no_generic(s);
    } else {
        lemma_generic(s, mark);
    }
    assert(names.take(names.len() as int) =~= names);
    lemma_segments(head, names, names.len() as int, 50);
    lemma_path(names);
}

/// A symbol without a mangling prefix stays as it is.
pub proof fn law_other_symbols_kept(lead: nat, s: Seq<char>)
    requires
        s.len() > 0 ==> s[0] != '_',
        s.len() < 3 || s[0] != 'M' || s[1] != '0' || !('A' <= s[2] <= 'Z'),
    ensures
        demangled(underscores(lead) + s) == underscores(lead) + s,
{
    if s.len() > 0 {
        lemma_underscores(lead, s);
    } else {
        lemma_only_underscores(lead);
        assert(underscores(lead) + s =~= underscores(lead));
    }
}

proof fn lemma_only_underscores(n: nat)
    ensures
        strip_leading(underscores(n), '_').len() == 0,
    decreases n,
{
    if n > 0 {
        assert(underscores(n).drop_first() =~= underscores((n - 1) as nat));
        lemma_only_underscores((n - 1) as nat);
    }
}

/// A name of letters and underscores alone.
pub open spec fn is_wordy(s: Seq<char>) -> bool {
    s.len() > 0 && forall|i: int|
        0 <= i < s.len() ==> ('a' <= #[trigger] s[i] <= 'z' || 'A' <= s[i] <= 'Z' || s[i] == '_')
}

/// Whether all characters of a text are decimal digits.
pub open spec fn all_digits(s: Seq<char>) -> bool {
    forall|i: int| 0 <= i < s.len() ==> '0' <= #[trigger] s[i] <= '9'
}

proof fn lemma_dec_digits(n: nat)
    ensures
        all_digits(dec(n)),
        dec(n).len() > 0,
        n > 0 ==> dec(n)[0] != '0',
    decreases n,
{
    if n >= 10 {
        lemma_dec_digits(n / 10);
        let f = dec(n / 10);
        assert forall|i: int| 0 <= i < dec(n).len() implies '0' <= #[trigger] dec(n)[i] <= '9' by {
            if i < f.len() {
                assert(dec(n)[i] == f[i]);
            }
        }
        assert(dec(n)[0] == f[0]);
    }
}

proof fn lemma_dec_length(a: nat, b: nat)
    requires
        a <= b,
    ensures
        dec(a).len() <= dec(b).len(),
    decreases b,
{
    if b >= 10 && a >= 10 {
        lemma_dec_length(a / 10, b / 10);
    } else if b >= 10 {
        lemma_dec_digits(b / 10);
    }
}

/// Behind a prefix of letters, names of letters and underscores can be read in one way only:
/// a length that is read wrongly would have to be a part of the right one.
proof fn lemma_wordy_once(head: Seq<char>, names: Seq<Seq<char>>, n: nat)
    requires
        head.len() >= 2,
        head[0] == 'M',
        head[1] == '0',
        is_wordy(head.skip(2)),
        forall|i: int| 0 <= i < names.len() ==> is_wordy(#[trigger] names[i]),
        n > 0,
        names.len() > 0 ==> names.last().len() < n,
    ensures
        !ends_in_name(head + mangled_names(names), n),
    decreases names.len(),
{
    let s = head + mangled_names(names);
    let d = dec(n);
    lemma_dec_digits(n);
    if ends_in_name(s, n) {
        let at = s.len() - n;
        let last_digit = s[at - 1];
        assert(s.subrange(at - d.len(), at as int)[d.len() - 1] == last_digit);
        assert('0' <= last_digit <= '9');
        assert(!('0' <= s.skip(at as int)[0] <= '9'));
        if names.len() == 0 {
            assert(s =~= head);
            if at - 1 >= 2 {
                assert(head.skip(2)[at - 3] == last_digit);
            }
            assert(at - 1 == 1);
            if d.len() >= 2 {
                assert(s.subrange(at - d.len(), at as int)[d.len() - 2] == s[0]);
            } else {
                assert(s.subrange(at - d.len(), at as int)[0] == s[1]);
                assert(d[0] != '0');
            }
        } else {
            let front = names.drop_last();
            let name = names.last();
            assert(is_wordy(names[names.len() - 1]));
            let before = head + mangled_names(front);
            let e = dec(name.len());
            lemma_dec_digits(name.len());
            assert(s =~= before + e + name);
            let start = before.len() + e.len();
            // The name read starts before the last one, and in no length.
            assert(at < start);
            if at >= before.len() {
                assert(s[at as int] == e[at - before.len()]);
                assert(s.skip(at as int)[0] == s[at as int]);
            }
            let m = (n - e.len() - name.len()) as nat;
            assert(at < before.len());
            assert(before[at as int] == s[at as int] && s.skip(at as int)[0] == s[at as int]);
            assert(before.subrange(at - d.len(), at as int) =~= s.subrange(at - d.len(), at as int));
            assert(stands_before(before, n, at as int));
            lemma_wordy_front(head, front, n, m, at as int);
        }
    }
}

/// Whether `n` stands in decimal before this place, and no digit behind it.
spec fn stands_before(s: Seq<char>, n: nat, at: int) -> bool {
    let d = dec(n);
    &&& d.len() <= at < s.len()
    &&& s.subrange(at - d.len(), at) == d
    &&& !('0' <= s[at] <= '9')
}

/// The same of a name that would end further on.
proof fn lemma_wordy_front(head: Seq<char>, names: Seq<Seq<char>>, n: nat, m: nat, at: int)
    requires
        head.len() >= 2,
        head[0] == 'M',
        head[1] == '0',
        is_wordy(head.skip(2)),
        forall|i: int| 0 <= i < names.len() ==> is_wordy(#[trigger] names[i]),
        n > m > 0,
        at == (head + mangled_names(names)).len() - m,
    ensures
        !stands_before(head + mangled_names(names), n, at),
    decreases names.len(),
{
    if stands_before(head + mangled_names(names), n, at) {
        let s = head + mangled_names(names);
        let d = dec(n);
        lemma_dec_digits(n);
        let last_digit = s[at - 1];
        assert(s.subrange(at - d.len(), at)[d.len() - 1] == last_digit);
        assert('0' <= d[d.len() - 1] <= '9');
        if names.len() == 0 {
            assert(s =~= head);
            if at - 1 >= 2 {
                assert(head.skip(2)[at - 3] == last_digit);
            }
            assert(at - 1 == 1);
            if d.len() >= 2 {
                assert(s.subrange(at - d.len(), at)[d.len() - 2] == s[0]);
                assert('0' <= d[d.len() - 2] <= '9');
            } else {
                assert(s.subrange(at - d.len(), at)[0] == s[1]);
            }
        } else {
            let front = names.drop_last();
            let name = names.last();
            assert(is_wordy(names[names.len() - 1]));
            let before = head + mangled_names(front);
            let e = dec(name.len());
            lemma_dec_digits(name.len());
            assert(s =~= before + e + name);
            let start = before.len() + e.len();
            if at > start {
                assert(s[at - 1] == name[at - 1 - start]);
                assert('a' <= name[at - 1 - start] <= 'z' || 'A' <= name[at - 1 - start] <= 'Z' || name[at - 1 - start]
                    == '_');
            } else if at == start {
                // The length is larger than that of the name, so it has no fewer digits.
                assert(m == name.len());
                lemma_dec_length(m, n);
                if d.len() == e.len() {
                    assert(s.subrange(at - d.len(), at) =~= e);
                    crate::text::law_decimal_round_trip(n);
                    crate::text::law_decimal_round_trip(m);
                } else {
                    assert(s.subrange(at - d.len(), at)[d.len() - e.len() - 1] == s[before.len() - 1]);
                    assert('0' <= d[d.len() - e.len() - 1] <= '9');
                    lemma_not_digit(head, front);
                }
            } else if at >= before.len() {
                assert(s[at] == e[at - before.len()]);
            } else {
                let k = (m - e.len() - name.len()) as nat;
                assert(before[at] == s[at]);
                assert(before.subrange(at - d.len(), at) =~= s.subrange(at - d.len(), at));
                lemma_wordy_front(head, front, n, k, at);
            }
        }
    }
}

/// What precedes a length ends in no digit.
proof fn lemma_not_digit(head: Seq<char>, names: Seq<Seq<char>>)
    requires
        head.len() >= 2,
        is_wordy(head.skip(2)),
        forall|i: int| 0 <= i < names.len() ==> is_wordy(#[trigger] names[i]),
    ensures
        ({
            let s = head + mangled_names(names);
            s.len() > 0 && !('0' <= s[s.len() - 1] <= '9')
        }),
{
    let s = head + mangled_names(names);
    if names.len() == 0 {
        assert(s =~= head);
        let t = head.skip(2);
        assert(t[t.len() - 1] == s[s.len() - 1]);
    } else {
        let name = names.last();
        assert(is_wordy(names[names.len() - 1]));
        assert(s[s.len() - 1] == name[name.len() - 1]);
    }
}

/// Behind a prefix of letters, names of letters of either case and underscores can be read in
/// one way only.
pub proof fn law_letters_read_uniquely(head: Seq<char>, names: Seq<Seq<char>>)
    requires
        head.len() >= 2,
        head[0] == 'M',
        head[1] == '0',
        is_wordy(head.skip(2)),
        forall|i: int| 0 <= i < names.len() ==> is_wordy(#[trigger] names[i]),
    ensures
        reads_uniquely(head, names),
{
    assert forall|n: nat| 0 < n <= 64 implies !#[trigger] ends_in_name(head, n) by {
        lemma_wordy_once(head, Seq::empty(), n);
        assert(head + mangled_names(Seq::empty()) =~= head);
    }
    assert forall|k: int, n: nat| 0 <= k < names.len() && names[k].len() < n <= 64 implies !#[trigger] ends_in_name(
        head + mangled_names(names.take(k + 1)),
        n,
    ) by {
        let part = names.take(k + 1);
        assert forall|i: int| 0 <= i < part.len() implies is_wordy(#[trigger] part[i]) by {
            assert(is_wordy(names[i]));
        }
        assert(part.last() == names[k]);
        lemma_wordy_once(head, part, n);
    }
}

} // verus!

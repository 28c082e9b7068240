//! JSON: reading values out of `serde_json::Value` trees, and building and printing
//! such trees.
use vstd::prelude::*;
use crate::double::is_exactly;
use crate::json_text::text_json;

verus! {

/// A JSON value. A number is known by what it is as a signed, as an unsigned and as a
/// double precision number, the last one by its bit pattern.
pub enum JsonView {
    Null,
    Bool(bool),
    Number { signed: Option<i64>, unsigned: Option<u64>, bits: u64 },
    Text(Seq<char>),
    Array(Seq<JsonView>),
    Object(Seq<(Seq<char>, JsonView)>),
    /// What cannot be read: a number that no double comes near, a string with half of a
    /// surrogate pair, what is nested too deep.
    Unread,
}

/// What `serde_json::Value` holds is known by [`tree`].
#[verifier::external_type_specification]
#[verifier::external_body]
pub struct ExValue(serde_json::Value);

/// What `serde_json::Error` holds stays unread.
#[verifier::external_type_specification]
#[verifier::external_body]
pub struct ExJsonError(serde_json::Error);

/// The tree that a `serde_json::Value` holds.
pub uninterp spec fn tree(v: serde_json::Value) -> JsonView;

/// Whether `serde_json::from_slice` takes bytes for JSON that nobody reads.
pub uninterp spec fn valid_json(bytes: Seq<u8>) -> bool;

/// What `serde_json::from_slice` makes of bytes. `None` where it cannot read them.
pub uninterp spec fn parsed_value(bytes: Seq<u8>) -> Option<JsonView>;

/// What `serde_json::Value` prints on one line.
pub uninterp spec fn compact_json(j: JsonView) -> Seq<char>;

/// What `serde_json::to_string_pretty` prints.
pub uninterp spec fn pretty_json(j: JsonView) -> Option<Seq<char>>;

/// The bit pattern of the double nearest to an integer.
pub uninterp spec fn int_bits(n: i64) -> u64;

/// The trees of a list of values.
pub open spec fn trees(s: Seq<serde_json::Value>) -> Seq<JsonView> {
    Seq::new(s.len(), |i: int| tree(s[i]))
}

/// The trees of a list of members.
pub open spec fn member_trees(s: Seq<(String, serde_json::Value)>) -> Seq<(Seq<char>, JsonView)> {
    Seq::new(s.len(), |i: int| (s[i].0@, tree(s[i].1)))
}

/// The value of the member with this key.
pub open spec fn member_of(m: Seq<(Seq<char>, JsonView)>, key: Seq<char>) -> Option<JsonView>
    decreases m.len(),
{
    if m.len() == 0 {
        None
    } else if m.last().0 == key {
        Some(m.last().1)
    } else {
        member_of(m.drop_last(), key)
    }
}

/// The value of the member with this key, where there is one.
pub open spec fn get(j: JsonView, key: Seq<char>) -> Option<JsonView> {
    match j {
        JsonView::Object(m) => member_of(m, key),
        _ => None,
    }
}

/// The members with one more: in place of one of the same key, or else behind the others.
pub open spec fn put_member(m: Seq<(Seq<char>, JsonView)>, key: Seq<char>, v: JsonView) -> Seq<(Seq<char>, JsonView)>
    decreases m.len(),
{
    if m.len() == 0 {
        seq![(key, v)]
    } else if m[0].0 == key {
        seq![(key, v)] + m.drop_first()
    } else {
        seq![m[0]] + put_member(m.drop_first(), key, v)
    }
}

/// The members, of those of one key only the last, in the place of the first.
pub open spec fn kept(m: Seq<(Seq<char>, JsonView)>) -> Seq<(Seq<char>, JsonView)>
    decreases m.len(),
{
    if m.len() == 0 {
        m
    } else {
        put_member(kept(m.drop_last()), m.last().0, m.last().1)
    }
}

proof fn lemma_put_new(m: Seq<(Seq<char>, JsonView)>, key: Seq<char>, v: JsonView)
    requires
        forall|i: int| 0 <= i < m.len() ==> (#[trigger] m[i]).0 != key,
    ensures
        put_member(m, key, v) == m.push((key, v)),
    decreases m.len(),
{
    if m.len() > 0 {
        let rest = m.drop_first();
        assert(m[0].0 != key);
        assert forall|i: int| 0 <= i < rest.len() implies (#[trigger] rest[i]).0 != key by {
            assert(m[i + 1].0 != key);
        }
        lemma_put_new(rest, key, v);
    }
    assert(put_member(m, key, v) =~= m.push((key, v)));
}

/// Members with distinct keys are kept as they are.
pub proof fn law_distinct_kept(m: Seq<(Seq<char>, JsonView)>)
    requires
        distinct_keys(m),
    ensures
        kept(m) == m,
    decreases m.len(),
{
    if m.len() > 0 {
        let n = m.len() - 1;
        let front = m.drop_last();
        assert forall|i: int, j: int| 0 <= i < j < front.len() implies #[trigger] front[i].0 != #[trigger] front[j].0 by {
            assert(m[i].0 != m[j].0);
        }
        law_distinct_kept(front);
        assert forall|i: int| 0 <= i < front.len() implies (#[trigger] front[i]).0 != m[n].0 by {
            assert(m[i].0 != m[n].0);
        }
        lemma_put_new(front, m[n].0, m[n].1);
        assert(front.push(m[n]) =~= m);
    }
}

/// No two members have the same key.
pub open spec fn distinct_keys(m: Seq<(Seq<char>, JsonView)>) -> bool {
    forall|i: int, j: int| 0 <= i < j < m.len() ==> #[trigger] m[i].0 != #[trigger] m[j].0
}

/// An integer.
pub open spec fn int_json(n: i64) -> JsonView {
    JsonView::Number {
        signed: Some(n),
        unsigned: if n >= 0 {
            Some(n as u64)
        } else {
            None
        },
        bits: int_bits(n),
    }
}

/// The double nearest to an integer.
pub open spec fn double_json(n: i64) -> JsonView {
    JsonView::Number { signed: None, unsigned: None, bits: int_bits(n) }
}

/// An integer that a double holds exactly, with a decimal digit to spare.
pub open spec fn is_short(n: int) -> bool {
    -900_000_000_000_000 <= n <= 900_000_000_000_000
}

/// A double that holds a short integer.
pub open spec fn is_short_double(j: JsonView) -> bool {
    exists|n: i64| is_short(n as int) && j == #[trigger] double_json(n)
}

/// A tree in which every number is an integer or a double that holds a short one, no object
/// repeats a key, and nothing is nested deeper than `depth`.
pub open spec fn is_plain(j: JsonView, depth: nat) -> bool
    decreases j,
{
    match j {
        JsonView::Number { signed, .. } => (signed matches Some(n) && j == int_json(n)) || is_short_double(j),
        JsonView::Array(a) => depth > 0 && forall|i: int|
            0 <= i < a.len() ==> is_plain(#[trigger] a[i], (depth - 1) as nat),
        JsonView::Object(m) => depth > 0 && distinct_keys(m) && forall|i: int|
            0 <= i < m.len() ==> is_plain((#[trigger] m[i]).1, (depth - 1) as nat),
        JsonView::Unread => false,
        _ => true,
    }
}

/// The double nearest to some integer.
pub open spec fn is_double(j: JsonView) -> bool {
    exists|n: i64| j == #[trigger] double_json(n)
}

/// A tree in which every number is an integer or the double nearest to one, no object repeats
/// a key, and nothing is nested deeper than `depth`.
pub open spec fn is_printable(j: JsonView, depth: nat) -> bool
    decreases j,
{
    match j {
        JsonView::Number { signed, .. } => (signed matches Some(n) && j == int_json(n)) || is_double(j),
        JsonView::Array(a) => depth > 0 && forall|i: int|
            0 <= i < a.len() ==> is_printable(#[trigger] a[i], (depth - 1) as nat),
        JsonView::Object(m) => depth > 0 && distinct_keys(m) && forall|i: int|
            0 <= i < m.len() ==> is_printable((#[trigger] m[i]).1, (depth - 1) as nat),
        JsonView::Unread => false,
        _ => true,
    }
}

/// Whether `j` is `printed` but for the doubles that hold no short integer: in their places
/// stand doubles too.
pub open spec fn reads_as(j: JsonView, printed: JsonView) -> bool
    decreases printed,
{
    match printed {
        JsonView::Number { signed: None, .. } => j == printed || (!is_short_double(printed)
            && j matches JsonView::Number { signed: None, unsigned: None, .. }),
        JsonView::Array(a) => j matches JsonView::Array(b) && b.len() == a.len() && forall|i: int|
            0 <= i < a.len() ==> reads_as(b[i], #[trigger] a[i]),
        JsonView::Object(m) => j matches JsonView::Object(o) && o.len() == m.len() && forall|i: int|
            0 <= i < m.len() ==> o[i].0 == (#[trigger] m[i]).0 && reads_as(o[i].1, m[i].1),
        _ => j == printed,
    }
}

/// Where every double holds a short integer, a printed tree can be read back.
pub proof fn law_plain_printable(j: JsonView, depth: nat)
    requires
        is_plain(j, depth),
    ensures
        is_printable(j, depth),
    decreases depth,
{
    match j {
        JsonView::Array(a) => {
            assert forall|i: int| 0 <= i < a.len() implies is_printable(#[trigger] a[i], (depth - 1) as nat) by {
                law_plain_printable(a[i], (depth - 1) as nat);
            }
        },
        JsonView::Object(m) => {
            assert forall|i: int| 0 <= i < m.len() implies is_printable((#[trigger] m[i]).1, (depth - 1) as nat) by {
                law_plain_printable(m[i].1, (depth - 1) as nat);
            }
        },
        JsonView::Number { .. } => {
            if is_short_double(j) {
                let n = choose|n: i64| is_short(n as int) && j == #[trigger] double_json(n);
                assert(is_double(double_json(n)));
            }
        },
        _ => {},
    }
}

/// Where every double holds a short integer, what reads as a printed tree is that tree.
pub proof fn law_plain_read_back(j: JsonView, printed: JsonView, depth: nat)
    requires
        is_plain(printed, depth),
        reads_as(j, printed),
    ensures
        j == printed,
    decreases depth,
{
    match printed {
        JsonView::Array(a) => {
            let b = j->Array_0;
            assert forall|i: int| 0 <= i < a.len() implies #[trigger] b[i] == a[i] by {
                assert(reads_as(b[i], a[i]));
                law_plain_read_back(b[i], a[i], (depth - 1) as nat);
            }
            assert(b =~= a);
        },
        JsonView::Object(m) => {
            let o = j->Object_0;
            assert forall|i: int| 0 <= i < m.len() implies #[trigger] o[i] == m[i] by {
                assert(o[i].0 == m[i].0 && reads_as(o[i].1, m[i].1));
                law_plain_read_back(o[i].1, m[i].1, (depth - 1) as nat);
            }
            assert(o =~= m);
        },
        _ => {},
    }
}

/// `serde_json::from_slice` to a `serde::de::IgnoredAny`: whether bytes hold JSON.
#[verifier::external_body]
pub(crate) fn is_json(bytes: &[u8]) -> (r: bool)
    ensures
        r == valid_json(bytes@),
{
    serde_json::from_slice::<serde::de::IgnoredAny>(bytes).is_ok()
}

/// `serde_json::from_slice` to a `serde_json::Value`.
#[verifier::external_body]
pub(crate) fn parse_value(bytes: &[u8]) -> (r: Result<serde_json::Value, serde_json::Error>)
    ensures
        match r {
            Ok(v) => parsed_value(bytes@) == Some(tree(v)),
            Err(_) => parsed_value(bytes@) is None,
        },
{
    serde_json::from_slice(bytes)
}

/// `serde_json::Value::clone`.
#[verifier::external_body]
pub(crate) fn copy_value(v: &serde_json::Value) -> (r: serde_json::Value)
    ensures
        tree(r) == tree(*v),
{
    v.clone()
}

/// `serde_json::Value::is_null`.
pub assume_specification[ serde_json::Value::is_null ](v: &serde_json::Value) -> (r: bool)
    ensures
        r == (tree(*v) is Null),
;

/// `serde_json::Value::is_boolean`.
pub assume_specification[ serde_json::Value::is_boolean ](v: &serde_json::Value) -> (r: bool)
    ensures
        r == (tree(*v) is Bool),
;

/// `serde_json::Value::as_str`.
pub assume_specification[ serde_json::Value::as_str ](v: &serde_json::Value) -> (r: Option<&str>)
    ensures
        match r {
            Some(s) => tree(*v) == JsonView::Text(s@),
            None => !(tree(*v) is Text),
        },
;

/// `serde_json::Value::as_i64`: a number that is an integer in the signed range.
pub assume_specification[ serde_json::Value::as_i64 ](v: &serde_json::Value) -> (r: Option<i64>)
    ensures
        r == as_int(tree(*v)),
;

/// `serde_json::Value::as_u64`: a number that is an integer in the unsigned range.
pub assume_specification[ serde_json::Value::as_u64 ](v: &serde_json::Value) -> (r: Option<u64>)
    ensures
        r == as_uint(tree(*v)),
;

/// `serde_json::Value::as_f64`, handed out by its bit pattern.
#[verifier::external_body]
pub(crate) fn value_bits(v: &serde_json::Value) -> (r: Option<u64>)
    ensures
        r == as_bits(tree(*v)),
{
    v.as_f64().map(|x| x.to_bits())
}

/// A number as a signed integer.
pub open spec fn as_int(j: JsonView) -> Option<i64> {
    match j {
        JsonView::Number { signed, .. } => signed,
        _ => None,
    }
}

/// A number as an unsigned integer.
pub open spec fn as_uint(j: JsonView) -> Option<u64> {
    match j {
        JsonView::Number { unsigned, .. } => unsigned,
        _ => None,
    }
}

/// A number as a double precision bit pattern.
pub open spec fn as_bits(j: JsonView) -> Option<u64> {
    match j {
        JsonView::Number { bits, .. } => Some(bits),
        _ => None,
    }
}

/// `serde_json::Value` as text on one line.
#[verifier::external_body]
pub(crate) fn print_compact(v: &serde_json::Value) -> (r: String)
    ensures
        r@ == compact_json(tree(*v)),
{
    v.to_string()
}

/// `serde_json::to_string_pretty`. Where every number is an integer or the double nearest to
/// one, and the nesting is not deep, the text holds the same tree: it is JSON, its arrays and
/// objects have the same items and members in the same order, and `serde_json::from_slice`
/// reads the names, the strings and the integers back. A double that holds a short integer is
/// printed with its digits and at most one zero behind them, which a double holds exactly, and
/// is read as those digits times a power of ten. Any other double is read as a double, of
/// which nothing is said.
#[verifier::external_body]
pub(crate) fn print_pretty(v: &serde_json::Value) -> (r: Result<String, serde_json::Error>)
    ensures
        match r {
            Ok(s) => pretty_json(tree(*v)) == Some(s@) && (is_printable(tree(*v), 64) ==> (text_json(
                s@,
            ) matches Some(j) && reads_as(j, tree(*v)))),
            Err(_) => pretty_json(tree(*v)) is None,
        },
{
    serde_json::to_string_pretty(v)
}

/// `serde_json::Value` from an integer.
#[verifier::external_body]
pub(crate) fn int_value(n: i64) -> (r: serde_json::Value)
    ensures
        tree(r) == int_json(n),
{
    serde_json::Value::from(n)
}

/// `serde_json::Value` from the double nearest to an integer. A short integer is held
/// exactly.
#[verifier::external_body]
pub(crate) fn double_value(n: i64) -> (r: serde_json::Value)
    ensures
        tree(r) == (JsonView::Number { signed: None, unsigned: None, bits: int_bits(n) }),
        is_short(n as int) ==> is_exactly(as_bits(tree(r)).unwrap(), n as int),
{
    serde_json::Number::from_f64(n as _).into()
}

/// `serde_json::Value` from a string.
#[verifier::external_body]
pub(crate) fn text_value(s: String) -> (r: serde_json::Value)
    ensures
        tree(r) == JsonView::Text(s@),
{
    serde_json::Value::from(s)
}

/// `serde_json::Value` from a list.
#[verifier::external_body]
pub(crate) fn array_value(a: Vec<serde_json::Value>) -> (r: serde_json::Value)
    ensures
        tree(r) == JsonView::Array(trees(a@)),
{
    serde_json::Value::from(a)
}

/// `serde_json::Value` from members, which keep their order. A member of a name that is there
/// takes the place of the other one.
#[verifier::external_body]
pub(crate) fn object_value(m: Vec<(String, serde_json::Value)>) -> (r: serde_json::Value)
    ensures
        tree(r) == JsonView::Object(kept(member_trees(m@))),
{
    serde_json::Value::from_iter(m)
}

/// `serde_json::Value` from members with distinct keys.
pub(crate) fn distinct_object(m: Vec<(String, serde_json::Value)>) -> (r: serde_json::Value)
    requires
        distinct_keys(member_trees(m@)),
    ensures
        tree(r) == JsonView::Object(member_trees(m@)),
{
    proof {
        law_distinct_kept(member_trees(m@));
    }
    object_value(m)
}

} // verus!

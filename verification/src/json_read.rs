//! Fields of JSON records. A record is an object with named members, or an array of
//! its fields in their order.
use vstd::prelude::*;
use crate::json::{as_int, member_of, tree, JsonView};
use crate::json_text::{as_value, json_values, member_values, Json};

verus! {

/// Whether a value is a record of at most `n` fields. Members of other names may
/// stand in an object.
pub open spec fn is_record(j: JsonView, n: nat) -> bool {
    match j {
        JsonView::Object(_) => true,
        JsonView::Array(a) => a.len() <= n,
        _ => false,
    }
}

/// The member of this name. One whose name is there twice cannot be read.
pub open spec fn only_member(m: Seq<(Seq<char>, JsonView)>, name: Seq<char>) -> Option<JsonView>
    decreases m.len(),
{
    if m.len() == 0 {
        None
    } else if m.last().0 == name {
        if member_of(m.drop_last(), name) is Some {
            Some(JsonView::Unread)
        } else {
            Some(m.last().1)
        }
    } else {
        only_member(m.drop_last(), name)
    }
}

/// The field of a record with this name, which is the one at this position.
pub open spec fn field(j: JsonView, name: Seq<char>, pos: nat) -> Option<JsonView> {
    match j {
        JsonView::Object(m) => only_member(m, name),
        JsonView::Array(a) => if pos < a.len() {
            Some(a[pos as int])
        } else {
            None
        },
        _ => None,
    }
}

/// A list of integers.
pub open spec fn ints(j: JsonView) -> Option<Seq<i64>> {
    match j {
        JsonView::Array(a) => if forall|i: int| 0 <= i < a.len() ==> as_int(#[trigger] a[i]) is Some {
            Some(Seq::new(a.len(), |i: int| as_int(a[i]).unwrap()))
        } else {
            None
        },
        _ => None,
    }
}

/// A list of integers, empty where the field is missing.
pub open spec fn ints_or_none(f: Option<JsonView>) -> Option<Seq<i64>> {
    match f {
        Some(j) => ints(j),
        None => Some(Seq::empty()),
    }
}

/// An integer, `default` where the field is missing.
pub open spec fn int_or(f: Option<JsonView>, default: i64) -> Option<i64> {
    match f {
        Some(j) => as_int(j),
        None => Some(default),
    }
}

/// A 32-bit integer, `default` where the field is missing.
pub open spec fn short_or(f: Option<JsonView>, default: i32) -> Option<i32> {
    match f {
        Some(j) => match as_int(j) {
            Some(n) => if i32::MIN <= n <= i32::MAX {
                Some(n as i32)
            } else {
                None
            },
            None => None,
        },
        None => Some(default),
    }
}

/// An integer that may be missing or null.
pub open spec fn opt_int(f: Option<JsonView>) -> Option<Option<i64>> {
    match f {
        None => Some(None),
        Some(JsonView::Null) => Some(None),
        Some(j) => match as_int(j) {
            Some(n) => Some(Some(n)),
            None => None,
        },
    }
}

/// A string.
pub open spec fn as_text(j: JsonView) -> Option<Seq<char>> {
    match j {
        JsonView::Text(s) => Some(s),
        _ => None,
    }
}

/// A string, `default` where the field is missing.
pub open spec fn text_or(f: Option<JsonView>, default: Seq<char>) -> Option<Seq<char>> {
    match f {
        Some(j) => as_text(j),
        None => Some(default),
    }
}

/// A string that may be missing or null.
pub open spec fn opt_text(f: Option<JsonView>) -> Option<Option<Seq<char>>> {
    match f {
        None => Some(None),
        Some(JsonView::Null) => Some(None),
        Some(j) => match as_text(j) {
            Some(s) => Some(Some(s)),
            None => None,
        },
    }
}

/// A value of any kind that may be missing or null.
pub open spec fn opt_value(f: Option<JsonView>) -> Option<Option<JsonView>> {
    match f {
        None => Some(None),
        Some(JsonView::Null) => Some(None),
        Some(j) => match as_value(j) {
            Some(v) => Some(Some(v)),
            None => None,
        },
    }
}

/// The tree of what may be missing.
pub open spec fn opt_tree(v: Option<&Json>) -> Option<JsonView> {
    match v {
        Some(x) => Some(x.value()),
        None => None,
    }
}

pub(crate) fn record(v: &Json, n: usize) -> (r: bool)
    ensures
        r == is_record(v.value(), n as nat),
{
    if v.as_object().is_some() {
        return true;
    }
    match v.as_array() {
        Some(a) => {
            assert(json_values(a@).len() == a@.len());
            a.len() <= n
        },
        None => false,
    }
}

/// The last member of this name.
pub(crate) fn last_member<'a>(m: &'a Vec<(String, Json)>, n: usize, name: &str) -> (r: Option<&'a Json>)
    requires
        n <= m@.len(),
    ensures
        opt_tree(r) == member_of(member_values(m@).take(n as int), name@),
{
    let ghost t = member_values(m@);
    let mut i: usize = n;
    while i > 0
        invariant
            i <= n <= m@.len(),
            t == member_values(m@),
            member_of(t.take(n as int), name@) == member_of(t.take(i as int), name@),
        decreases i,
    {
        proof {
            assert(t.take(i as int).last() == (m@[i - 1].0@, m@[i - 1].1.value()));
            assert(t.take(i as int).drop_last() =~= t.take(i - 1));
        }
        if m[i - 1].0.as_str().eq(name) {
            return Some(&m[i - 1].1);
        }
        i -= 1;
    }
    None
}

/// The member of this name.
fn pick<'a>(m: &'a Vec<(String, Json)>, name: &str) -> (r: Option<&'a Json>)
    ensures
        opt_tree(r) == only_member(member_values(m@), name@),
{
    let ghost t = member_values(m@);
    let n: usize = m.len();
    let mut i: usize = n;
    assert(t.take(n as int) =~= t);
    while i > 0
        invariant
            i <= n,
            n == m@.len(),
            t == member_values(m@),
            only_member(t, name@) == only_member(t.take(i as int), name@),
        decreases i,
    {
        proof {
            assert(t.take(i as int).last() == (m@[i - 1].0@, m@[i - 1].1.value()));
            assert(t.take(i as int).drop_last() =~= t.take(i - 1));
        }
        if m[i - 1].0.as_str().eq(name) {
            return if last_member(m, i - 1, name).is_some() {
                Some(&Json::Unread)
            } else {
                Some(&m[i - 1].1)
            };
        }
        i -= 1;
    }
    None
}

pub(crate) fn read_field<'a>(v: &'a Json, name: &str, pos: usize) -> (r: Option<&'a Json>)
    ensures
        opt_tree(r) == field(v.value(), name@, pos as nat),
{
    match v.as_array() {
        Some(a) => {
            assert(json_values(a@).len() == a@.len());
            if pos < a.len() {
                Some(&a[pos])
            } else {
                None
            }
        },
        None => match v.as_object() {
            Some(m) => pick(m, name),
            None => None,
        },
    }
}

pub(crate) fn read_ints(v: &Json) -> (r: Option<Vec<i64>>)
    ensures
        match r {
            Some(out) => ints(v.value()) == Some(out@),
            None => ints(v.value()) is None,
        },
{
    let a = match v.as_array() {
        Some(a) => a,
        None => {
            return None;
        },
    };
    let ghost t = json_values(a@);
    let mut out: Vec<i64> = Vec::new();
    for i in 0..a.len()
        invariant
            t == json_values(a@),
            v.value() == JsonView::Array(t),
            out@.len() == i,
            forall|k: int| 0 <= k < i ==> as_int(#[trigger] t[k]) == Some(out@[k]),
    {
        match a[i].as_i64() {
            Some(n) => {
                out.push(n);
            },
            None => {
                assert(as_int(t[i as int]) is None);
                return None;
            },
        }
    }
    assert(out@ =~= Seq::new(t.len(), |i: int| as_int(t[i]).unwrap()));
    Some(out)
}

pub(crate) fn read_ints_or_none(f: Option<&Json>) -> (r: Option<Vec<i64>>)
    ensures
        match r {
            Some(out) => ints_or_none(opt_tree(f)) == Some(out@),
            None => ints_or_none(opt_tree(f)) is None,
        },
{
    match f {
        Some(v) => read_ints(v),
        None => Some(Vec::new()),
    }
}

pub(crate) fn read_int_or(f: Option<&Json>, default: i64) -> (r: Option<i64>)
    ensures
        r == int_or(opt_tree(f), default),
{
    match f {
        Some(v) => v.as_i64(),
        None => Some(default),
    }
}

pub(crate) fn read_short_or(f: Option<&Json>, default: i32) -> (r: Option<i32>)
    ensures
        r == short_or(opt_tree(f), default),
{
    match f {
        Some(v) => match v.as_i64() {
            Some(n) => if -0x8000_0000 <= n && n <= 0x7fff_ffff {
                Some(n as i32)
            } else {
                None
            },
            None => None,
        },
        None => Some(default),
    }
}

pub(crate) fn read_opt_int(f: Option<&Json>) -> (r: Option<Option<i64>>)
    ensures
        r == opt_int(opt_tree(f)),
{
    match f {
        Some(v) => {
            if v.is_null() {
                return Some(None);
            }
            match v.as_i64() {
                Some(n) => Some(Some(n)),
                None => None,
            }
        },
        None => Some(None),
    }
}

pub(crate) fn read_text(v: &Json) -> (r: Option<String>)
    ensures
        match r {
            Some(s) => as_text(v.value()) == Some(s@),
            None => as_text(v.value()) is None,
        },
{
    match v.as_str() {
        Some(s) => Some(s.to_owned()),
        None => None,
    }
}

pub(crate) fn read_text_or(f: Option<&Json>, default: &str) -> (r: Option<String>)
    ensures
        match r {
            Some(s) => text_or(opt_tree(f), default@) == Some(s@),
            None => text_or(opt_tree(f), default@) is None,
        },
{
    match f {
        Some(v) => read_text(v),
        None => Some(default.to_owned()),
    }
}

pub(crate) fn read_opt_text(f: Option<&Json>) -> (r: Option<Option<String>>)
    ensures
        match r {
            Some(Some(s)) => opt_text(opt_tree(f)) == Some(Some(s@)),
            Some(None) => opt_text(opt_tree(f)) == Some(None::<Seq<char>>),
            None => opt_text(opt_tree(f)) is None,
        },
{
    match f {
        Some(v) => {
            if v.is_null() {
                return Some(None);
            }
            match read_text(v) {
                Some(s) => Some(Some(s)),
                None => None,
            }
        },
        None => Some(None),
    }
}

/// The values of what may be missing.
pub(crate) open spec fn opt_held(v: Option<serde_json::Value>) -> Option<JsonView> {
    match v {
        Some(x) => Some(tree(x)),
        None => None,
    }
}

pub(crate) fn read_opt_value(f: Option<&Json>) -> (r: Option<Option<serde_json::Value>>)
    ensures
        match r {
            Some(v) => opt_value(opt_tree(f)) == Some(opt_held(v)),
            None => opt_value(opt_tree(f)) is None,
        },
{
    match f {
        Some(j) => {
            if j.is_null() {
                return Some(None);
            }
            match j.to_value() {
                Some(v) => Some(Some(v)),
                None => None,
            }
        },
        None => Some(None),
    }
}

/// The only member of its name is found.
pub(crate) proof fn lemma_member(m: Seq<(Seq<char>, JsonView)>, i: int)
    requires
        0 <= i < m.len(),
        forall|k: int| 0 <= k < m.len() && k != i ==> (#[trigger] m[k]).0 != m[i].0,
    ensures
        member_of(m, m[i].0) == Some(m[i].1),
        only_member(m, m[i].0) == Some(m[i].1),
    decreases m.len(),
{
    let front = m.drop_last();
    if i < m.len() - 1 {
        assert(m[m.len() - 1].0 != m[i].0);
        assert forall|k: int| 0 <= k < front.len() && k != i implies (#[trigger] front[k]).0 != front[i].0 by {
            assert(m[k].0 != m[i].0);
        }
        lemma_member(front, i);
    } else {
        assert forall|k: int| 0 <= k < front.len() implies (#[trigger] front[k]).0 != m[i].0 by {
            assert(m[k].0 != m[i].0);
        }
        lemma_no_member(front, m[i].0);
    }
}

pub(crate) proof fn lemma_no_member(m: Seq<(Seq<char>, JsonView)>, key: Seq<char>)
    requires
        forall|k: int| 0 <= k < m.len() ==> (#[trigger] m[k]).0 != key,
    ensures
        member_of(m, key) is None,
        only_member(m, key) is None,
    decreases m.len(),
{
    if m.len() > 0 {
        assert(m[m.len() - 1].0 != key);
        assert forall|k: int| 0 <= k < m.drop_last().len() implies (#[trigger] m.drop_last()[k]).0 != key by {
            assert(m[k].0 != key);
        }
        lemma_no_member(m.drop_last(), key);
    }
}

} // verus!

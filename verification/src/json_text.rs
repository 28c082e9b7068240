//! JSON text as a tree that keeps every member of an object.
//!
//! `serde_json` says whether a text is JSON, and reads its strings, numbers, `true`, `false`
//! and `null`. Where the items of an array and the members of an object end is read off the
//! text here: a record that names a field twice is refused, and what no record asks for need
//! not be readable.
use vstd::prelude::*;
use vstd::slice::slice_subrange;
use vstd::utf8::encode_utf8;
use crate::json::{
    array_value, as_bits, as_int, as_uint, copy_value, is_json, is_plain, kept, law_distinct_kept, member_trees, object_value,
    parse_value, parsed_value, put_member, tree, trees, valid_json, value_bits, JsonView,
};

verus! {

/// White space between the parts of a text.
pub open spec fn is_blank(c: u8) -> bool {
    c == 0x20 || c == 0x09 || c == 0x0a || c == 0x0d
}

/// `b` without the white space at its front.
pub open spec fn cut_front(b: Seq<u8>) -> Seq<u8>
    decreases b.len(),
{
    if b.len() > 0 && is_blank(b[0]) {
        cut_front(b.drop_first())
    } else {
        b
    }
}

/// `b` without the white space at its end.
pub open spec fn cut_end(b: Seq<u8>) -> Seq<u8>
    decreases b.len(),
{
    if b.len() > 0 && is_blank(b.last()) {
        cut_end(b.drop_last())
    } else {
        b
    }
}

/// `b` without the white space around it.
pub open spec fn stripped(b: Seq<u8>) -> Seq<u8> {
    cut_end(cut_front(b))
}

/// Where a place in a text stands: in how many brackets, and whether in a string.
pub struct Scan {
    pub depth: nat,
    pub quoted: bool,
    pub escaped: bool,
}

/// Outside all brackets and strings.
pub open spec fn at_top(s: Scan) -> bool {
    s.depth == 0 && !s.quoted
}

/// Behind one more byte.
pub open spec fn scanned(s: Scan, c: u8) -> Scan {
    if s.quoted {
        if s.escaped {
            Scan { escaped: false, ..s }
        } else if c == 0x5c {
            Scan { escaped: true, ..s }
        } else if c == 0x22 {
            Scan { quoted: false, ..s }
        } else {
            s
        }
    } else if c == 0x22 {
        Scan { quoted: true, ..s }
    } else if c == 0x5b || c == 0x7b {
        Scan { depth: s.depth + 1, ..s }
    } else if (c == 0x5d || c == 0x7d) && s.depth > 0 {
        Scan { depth: (s.depth - 1) as nat, ..s }
    } else {
        s
    }
}

/// The index of the first `c` outside all brackets and strings.
pub open spec fn top_index(b: Seq<u8>, c: u8, s: Scan) -> Option<int>
    decreases b.len(),
{
    if b.len() == 0 {
        None
    } else if at_top(s) && b[0] == c {
        Some(0)
    } else {
        match top_index(b.drop_first(), c, scanned(s, b[0])) {
            Some(i) => Some(i + 1),
            None => None,
        }
    }
}

/// The front of a text.
pub open spec fn front() -> Scan {
    Scan { depth: 0, quoted: false, escaped: false }
}

/// The pieces between the commas outside all brackets and strings.
pub open spec fn pieces(b: Seq<u8>) -> Seq<Seq<u8>>
    decreases b.len(),
{
    match top_index(b, 0x2c, front()) {
        None => seq![b],
        Some(i) => if 0 <= i < b.len() {
            seq![b.take(i)] + pieces(b.skip(i + 1))
        } else {
            Seq::empty()
        },
    }
}

/// What stands between the brackets of an array or an object.
pub open spec fn inner(b: Seq<u8>) -> Seq<u8> {
    let t = stripped(b);
    if t.len() >= 2 {
        t.subrange(1, t.len() - 1)
    } else {
        Seq::empty()
    }
}

/// The items of an array, or the members of an object.
pub open spec fn items(b: Seq<u8>) -> Seq<Seq<u8>> {
    if stripped(inner(b)).len() == 0 {
        Seq::empty()
    } else {
        pieces(inner(b))
    }
}

/// The text before the colon of a member.
pub open spec fn key_part(b: Seq<u8>) -> Seq<u8> {
    match top_index(b, 0x3a, front()) {
        Some(i) => b.take(i),
        None => b,
    }
}

/// The text behind the colon of a member.
pub open spec fn value_part(b: Seq<u8>) -> Seq<u8> {
    match top_index(b, 0x3a, front()) {
        Some(i) => b.skip(i + 1),
        None => Seq::empty(),
    }
}

/// A string, a number, `true`, `false` or `null`. Anything else cannot be read as such.
pub open spec fn scalar(j: JsonView) -> JsonView {
    match j {
        JsonView::Array(_) => JsonView::Unread,
        JsonView::Object(_) => JsonView::Unread,
        _ => j,
    }
}

/// What `serde_json` makes of such a text.
pub open spec fn scalar_tree(b: Seq<u8>) -> JsonView {
    match parsed_value(b) {
        Some(j) => scalar(j),
        None => JsonView::Unread,
    }
}

/// The name of a member.
pub open spec fn member_key(b: Seq<u8>) -> Option<Seq<char>> {
    match scalar_tree(key_part(b)) {
        JsonView::Text(s) => Some(s),
        _ => None,
    }
}

/// The tree of a JSON text. Arrays and objects deeper than `depth`, and objects one of whose
/// names cannot be read, cannot be read.
pub open spec fn json_tree(b: Seq<u8>, depth: nat) -> JsonView
    decreases depth,
{
    let t = stripped(b);
    let list = items(b);
    if t.len() > 0 && t[0] == 0x5b {
        if depth == 0 {
            JsonView::Unread
        } else {
            JsonView::Array(Seq::new(list.len(), |i: int| json_tree(list[i], (depth - 1) as nat)))
        }
    } else if t.len() > 0 && t[0] == 0x7b {
        if depth > 0 && forall|i: int| 0 <= i < list.len() ==> member_key(#[trigger] list[i]) is Some {
            JsonView::Object(
                Seq::new(
                    list.len(),
                    |i: int| (member_key(list[i]).unwrap(), json_tree(value_part(list[i]), (depth - 1) as nat)),
                ),
            )
        } else {
            JsonView::Unread
        }
    } else {
        scalar_tree(b)
    }
}

/// The tree of the JSON that bytes hold. `serde_json` reads up to 127 arrays and objects
/// inside one another.
pub open spec fn bytes_json(b: Seq<u8>) -> Option<JsonView> {
    if valid_json(b) {
        Some(json_tree(b, 127))
    } else {
        None
    }
}

/// The tree of the JSON that a text holds.
pub open spec fn text_json(s: Seq<char>) -> Option<JsonView> {
    bytes_json(encode_utf8(s))
}

/// A tree as a `serde_json::Value` holds it: all of it can be read, and of the members of one
/// name the last one counts.
pub open spec fn as_value(j: JsonView) -> Option<JsonView>
    decreases j,
{
    match j {
        JsonView::Unread => None,
        JsonView::Array(a) => if forall|i: int| 0 <= i < a.len() ==> as_value(#[trigger] a[i]) is Some {
            Some(
                JsonView::Array(
                    Seq::new(
                        a.len(),
                        |i: int|
                            if 0 <= i < a.len() {
                                as_value(a[i]).unwrap()
                            } else {
                                arbitrary()
                            },
                    ),
                ),
            )
        } else {
            None
        },
        JsonView::Object(m) => if forall|i: int| 0 <= i < m.len() ==> as_value((#[trigger] m[i]).1) is Some {
            Some(JsonView::Object(kept(settled_members(m))))
        } else {
            None
        },
        _ => Some(j),
    }
}

/// The members of an object all of which can be read.
pub open spec fn settled_members(m: Seq<(Seq<char>, JsonView)>) -> Seq<(Seq<char>, JsonView)>
    decreases m,
{
    Seq::new(
        m.len(),
        |i: int|
            if 0 <= i < m.len() {
                (m[i].0, as_value(m[i].1).unwrap())
            } else {
                arbitrary()
            },
    )
}

/// JSON as it was read.
#[derive(Debug)]
pub enum Json {
    /// What cannot be read.
    Unread,
    /// A string, a number, `true`, `false` or `null`.
    Scalar(serde_json::Value),
    List(Vec<Json>),
    Record(Vec<(String, Json)>),
}

impl Json {
    /// The tree.
    pub open spec fn value(self) -> JsonView
        decreases self,
    {
        match self {
            Json::Unread => JsonView::Unread,
            Json::Scalar(v) => scalar(tree(v)),
            Json::List(a) => JsonView::Array(
                Seq::new(
                    a@.len(),
                    |i: int|
                        if 0 <= i < a@.len() {
                            a@[i].value()
                        } else {
                            arbitrary()
                        },
                ),
            ),
            Json::Record(m) => JsonView::Object(
                Seq::new(
                    m@.len(),
                    |i: int|
                        if 0 <= i < m@.len() {
                            (m@[i].0@, m@[i].1.value())
                        } else {
                            arbitrary()
                        },
                ),
            ),
        }
    }
}

/// The trees of a list.
pub open spec fn json_values(s: Seq<Json>) -> Seq<JsonView> {
    Seq::new(s.len(), |i: int| s[i].value())
}

/// The trees of a list of members.
pub open spec fn member_values(s: Seq<(String, Json)>) -> Seq<(Seq<char>, JsonView)> {
    Seq::new(s.len(), |i: int| (s[i].0@, s[i].1.value()))
}

proof fn lemma_list(a: Vec<Json>)
    ensures
        Json::List(a).value() == JsonView::Array(json_values(a@)),
{
    assert(Json::List(a).value()->Array_0 =~= json_values(a@));
}

proof fn lemma_record(m: Vec<(String, Json)>)
    ensures
        Json::Record(m).value() == JsonView::Object(member_values(m@)),
{
    assert(Json::Record(m).value()->Object_0 =~= member_values(m@));
}

/// `b` without the white space around it.
fn strip<'a>(b: &'a [u8]) -> (r: &'a [u8])
    ensures
        r@ == stripped(b@),
{
    let n: usize = b.len();
    let mut i: usize = 0;
    assert(b@.skip(0) =~= b@);
    while i < n && (b[i] == 0x20 || b[i] == 0x09 || b[i] == 0x0a || b[i] == 0x0d)
        invariant
            n == b@.len(),
            i <= n,
            cut_front(b@) == cut_front(b@.skip(i as int)),
        decreases n - i,
    {
        assert(b@.skip(i as int).drop_first() =~= b@.skip(i + 1));
        i += 1;
    }
    let ghost t = b@.skip(i as int);
    assert(cut_front(b@) == t);
    let mut k: usize = n;
    assert(t.take(k - i) =~= t);
    while k > i && (b[k - 1] == 0x20 || b[k - 1] == 0x09 || b[k - 1] == 0x0a || b[k - 1] == 0x0d)
        invariant
            n == b@.len(),
            i <= k <= n,
            t == b@.skip(i as int),
            cut_end(t) == cut_end(t.take(k - i)),
        decreases k,
    {
        assert(t.take(k - i).last() == b@[k - 1]);
        assert(t.take(k - i).drop_last() =~= t.take(k - i - 1));
        k -= 1;
    }
    proof {
        if k > i {
            assert(t.take(k - i).last() == b@[k - 1]);
        }
        assert(t.take(k - i) =~= b@.subrange(i as int, k as int));
    }
    slice_subrange(b, i, k)
}

/// The index of the first `c` outside all brackets and strings.
fn find_top(b: &[u8], c: u8) -> (r: Option<usize>)
    ensures
        match r {
            Some(i) => top_index(b@, c, front()) == Some(i as int) && i < b@.len(),
            None => top_index(b@, c, front()) is None,
        },
{
    let n: usize = b.len();
    let mut depth: usize = 0;
    let mut quoted = false;
    let mut escaped = false;
    assert(b@.skip(0) =~= b@);
    for i in 0..n
        invariant
            n == b@.len(),
            depth <= i,
            ({
                let s = Scan { depth: depth as nat, quoted, escaped };
                top_index(b@, c, front()) == match top_index(b@.skip(i as int), c, s) {
                    Some(k) => Some(k + i),
                    None => None,
                }
            }),
    {
        let x: u8 = b[i];
        proof {
            assert(b@.skip(i as int)[0] == x);
            assert(b@.skip(i as int).drop_first() =~= b@.skip(i + 1));
        }
        if depth == 0 && !quoted && x == c {
            return Some(i);
        }
        if quoted {
            if escaped {
                escaped = false;
            } else if x == 0x5c {
                escaped = true;
            } else if x == 0x22 {
                quoted = false;
            }
        } else if x == 0x22 {
            quoted = true;
        } else if x == 0x5b || x == 0x7b {
            depth += 1;
        } else if (x == 0x5d || x == 0x7d) && depth > 0 {
            depth -= 1;
        }
    }
    None
}

/// The texts of slices.
pub open spec fn slices(s: Seq<&[u8]>) -> Seq<Seq<u8>> {
    Seq::new(s.len(), |i: int| s[i]@)
}

/// The items of an array, or the members of an object.
fn list_items<'a>(b: &'a [u8]) -> (r: Vec<&'a [u8]>)
    ensures
        slices(r@) == items(b@),
{
    let t = strip(b);
    let mut r: Vec<&'a [u8]> = Vec::new();
    let n: usize = t.len();
    let mut rest: &'a [u8] = if n >= 2 {
        slice_subrange(t, 1, n - 1)
    } else {
        slice_subrange(t, 0, 0)
    };
    let ghost all = inner(b@);
    assert(rest@ =~= all);
    if strip(rest).len() == 0 {
        assert(slices(r@) =~= Seq::<Seq<u8>>::empty());
        return r;
    }
    assert(slices(r@) + pieces(rest@) =~= pieces(all));
    loop
        invariant
            all == inner(b@),
            stripped(all).len() > 0,
            pieces(all) == slices(r@) + pieces(rest@),
        decreases rest@.len(),
    {
        let ghost done = r@;
        let n: usize = rest.len();
        match find_top(rest, 0x2c) {
            Some(i) => {
                let one = slice_subrange(rest, 0, i);
                let after = slice_subrange(rest, i + 1, n);
                proof {
                    assert(one@ =~= rest@.take(i as int));
                    assert(after@ =~= rest@.skip(i + 1));
                }
                r.push(one);
                proof {
                    assert(slices(r@) =~= slices(done).push(one@));
                    assert(slices(done) + (seq![one@] + pieces(after@)) =~= slices(r@) + pieces(after@));
                }
                rest = after;
            },
            None => {
                r.push(rest);
                assert(slices(r@) =~= slices(done) + seq![rest@]);
                return r;
            },
        }
    }
}

/// Reads a string, a number, `true`, `false` or `null`.
fn read_scalar(b: &[u8]) -> (r: Json)
    ensures
        r.value() == scalar_tree(b@),
{
    match parse_value(b) {
        Ok(v) => Json::Scalar(v),
        Err(_) => Json::Unread,
    }
}

/// Reads the name of a member.
fn read_key(b: &[u8]) -> (r: Option<String>)
    ensures
        match r {
            Some(s) => scalar_tree(b@) == JsonView::Text(s@),
            None => !(scalar_tree(b@) is Text),
        },
{
    match parse_value(b) {
        Ok(v) => match v.as_str() {
            Some(s) => Some(s.to_owned()),
            None => None,
        },
        Err(_) => None,
    }
}

/// Reads a JSON text.
fn read_tree(b: &[u8], depth: u32) -> (r: Json)
    ensures
        r.value() == json_tree(b@, depth as nat),
    decreases depth,
{
    let t = strip(b);
    if t.len() == 0 || (t[0] != 0x5b && t[0] != 0x7b) {
        return read_scalar(b);
    }
    if depth == 0 {
        return Json::Unread;
    }
    let parts = list_items(b);
    let ghost list = items(b@);
    let ghost below = (depth - 1) as nat;
    if t[0] == 0x5b {
        let mut a: Vec<Json> = Vec::new();
        for i in 0..parts.len()
            invariant
                slices(parts@) == list,
                depth > 0,
                below == depth - 1,
                a@.len() == i,
                forall|k: int| 0 <= k < i ==> (#[trigger] a@[k]).value() == json_tree(list[k], below),
        {
            assert(slices(parts@)[i as int] == parts@[i as int]@);
            a.push(read_tree(parts[i], depth - 1));
        }
        proof {
            assert(slices(parts@).len() == parts@.len());
            lemma_list(a);
            assert(json_values(a@) =~= json_tree(b@, depth as nat)->Array_0);
        }
        return Json::List(a);
    }
    let mut m: Vec<(String, Json)> = Vec::new();
    for i in 0..parts.len()
        invariant
            slices(parts@) == list,
            list == items(b@),
            t@ == stripped(b@),
            t@.len() > 0,
            t@[0] == 0x7b,
            depth > 0,
            below == depth - 1,
            m@.len() == i,
            forall|k: int|
                0 <= k < i ==> member_key(#[trigger] list[k]) == Some(m@[k].0@) && m@[k].1.value() == json_tree(
                    value_part(list[k]),
                    below,
                ),
    {
        let part = parts[i];
        assert(slices(parts@)[i as int] == part@);
        let n: usize = part.len();
        let (key, value): (&[u8], &[u8]) = match find_top(part, 0x3a) {
            Some(k) => (slice_subrange(part, 0, k), slice_subrange(part, k + 1, n)),
            None => (part, slice_subrange(part, 0, 0)),
        };
        proof {
            assert(key@ =~= key_part(part@));
            assert(value@ =~= value_part(part@));
        }
        match read_key(key) {
            Some(name) => {
                m.push((name, read_tree(value, depth - 1)));
            },
            None => {
                assert(member_key(list[i as int]) is None);
                return Json::Unread;
            },
        }
    }
    proof {
        assert(slices(parts@).len() == parts@.len());
        lemma_record(m);
        assert(json_tree(b@, depth as nat) is Object);
        assert(member_values(m@) =~= json_tree(b@, depth as nat)->Object_0);
    }
    Json::Record(m)
}

/// Reads the JSON that bytes hold.
pub(crate) fn read_bytes(b: &[u8]) -> (r: Option<Json>)
    ensures
        match r {
            Some(v) => bytes_json(b@) == Some(v.value()),
            None => bytes_json(b@) is None,
        },
{
    if is_json(b) {
        Some(read_tree(b, 127))
    } else {
        None
    }
}

impl Json {
    /// The items of an array.
    pub(crate) fn as_array(&self) -> (r: Option<&Vec<Json>>)
        ensures
            match r {
                Some(a) => self.value() == JsonView::Array(json_values(a@)),
                None => !(self.value() is Array),
            },
    {
        match self {
            Json::List(a) => {
                proof {
                    lemma_list(*a);
                }
                Some(a)
            },
            _ => None,
        }
    }

    /// The members of an object.
    pub(crate) fn as_object(&self) -> (r: Option<&Vec<(String, Json)>>)
        ensures
            match r {
                Some(m) => self.value() == JsonView::Object(member_values(m@)),
                None => !(self.value() is Object),
            },
    {
        match self {
            Json::Record(m) => {
                proof {
                    lemma_record(*m);
                }
                Some(m)
            },
            _ => None,
        }
    }

    pub(crate) fn is_null(&self) -> (r: bool)
        ensures
            r == (self.value() is Null),
    {
        match self {
            Json::Scalar(v) => v.is_null(),
            _ => false,
        }
    }

    pub(crate) fn as_str(&self) -> (r: Option<&str>)
        ensures
            match r {
                Some(s) => self.value() == JsonView::Text(s@),
                None => !(self.value() is Text),
            },
    {
        match self {
            Json::Scalar(v) => v.as_str(),
            _ => None,
        }
    }

    pub(crate) fn as_i64(&self) -> (r: Option<i64>)
        ensures
            r == as_int(self.value()),
    {
        match self {
            Json::Scalar(v) => v.as_i64(),
            _ => None,
        }
    }

    pub(crate) fn as_u64(&self) -> (r: Option<u64>)
        ensures
            r == as_uint(self.value()),
    {
        match self {
            Json::Scalar(v) => v.as_u64(),
            _ => None,
        }
    }

    /// A number as a double precision bit pattern.
    pub(crate) fn number_bits(&self) -> (r: Option<u64>)
        ensures
            r == as_bits(self.value()),
    {
        match self {
            Json::Scalar(v) => value_bits(v),
            _ => None,
        }
    }
}

/// Whether a value is a string, a number, `true`, `false` or `null`.
fn is_scalar(v: &serde_json::Value) -> (r: bool)
    ensures
        r == (as_value(scalar(tree(*v))) is Some),
        r ==> as_value(scalar(tree(*v))) == Some(tree(*v)),
{
    v.is_null() || v.is_boolean() || v.as_str().is_some() || value_bits(v).is_some()
}

impl Json {
    /// The `serde_json::Value` that holds the tree.
    pub(crate) fn to_value(&self) -> (r: Option<serde_json::Value>)
        ensures
            match r {
                Some(v) => as_value(self.value()) == Some(tree(v)),
                None => as_value(self.value()) is None,
            },
        decreases self,
    {
        match self {
            Json::Unread => None,
            Json::Scalar(v) => if is_scalar(v) {
                Some(copy_value(v))
            } else {
                None
            },
            Json::List(a) => {
                let mut out: Vec<serde_json::Value> = Vec::new();
                let ghost t = json_values(a@);
                proof {
                    lemma_list(*a);
                }
                for i in 0..a.len()
                    invariant
                        *self == Json::List(*a),
                        t == json_values(a@),
                        self.value() == JsonView::Array(t),
                        out@.len() == i,
                        forall|k: int| 0 <= k < i ==> as_value(#[trigger] t[k]) == Some(tree(out@[k])),
                {
                    assert(t[i as int] == a@[i as int].value());
                    match a[i].to_value() {
                        Some(v) => {
                            out.push(v);
                        },
                        None => {
                            assert(as_value(t[i as int]) is None);
                            return None;
                        },
                    }
                }
                assert(trees(out@) =~= as_value(JsonView::Array(t)).unwrap()->Array_0);
                Some(array_value(out))
            },
            Json::Record(m) => {
                let mut out: Vec<(String, serde_json::Value)> = Vec::new();
                let ghost t = member_values(m@);
                proof {
                    lemma_record(*m);
                }
                for i in 0..m.len()
                    invariant
                        *self == Json::Record(*m),
                        t == member_values(m@),
                        self.value() == JsonView::Object(t),
                        out@.len() == i,
                        forall|k: int|
                            0 <= k < i ==> as_value((#[trigger] t[k]).1) == Some(tree(out@[k].1)) && out@[k].0@
                                == t[k].0,
                {
                    assert(t[i as int] == (m@[i as int].0@, m@[i as int].1.value()));
                    match m[i].1.to_value() {
                        Some(v) => {
                            out.push((m[i].0.clone(), v));
                        },
                        None => {
                            assert(as_value(t[i as int].1) is None);
                            return None;
                        },
                    }
                }
                proof {
                    assert(member_trees(out@) =~= settled_members(t));
                }
                Some(object_value(out))
            },
        }
    }

    /// Whether all of it can be read.
    pub(crate) fn is_readable(&self) -> (r: bool)
        ensures
            r == (as_value(self.value()) is Some),
        decreases self,
    {
        match self {
            Json::Unread => false,
            Json::Scalar(v) => is_scalar(v),
            Json::List(a) => {
                let ghost t = json_values(a@);
                proof {
                    lemma_list(*a);
                }
                for i in 0..a.len()
                    invariant
                        *self == Json::List(*a),
                        t == json_values(a@),
                        self.value() == JsonView::Array(t),
                        forall|k: int| 0 <= k < i ==> as_value(#[trigger] t[k]) is Some,
                {
                    assert(t[i as int] == a@[i as int].value());
                    if !a[i].is_readable() {
                        assert(as_value(t[i as int]) is None);
                        return false;
                    }
                }
                true
            },
            Json::Record(m) => {
                let ghost t = member_values(m@);
                proof {
                    lemma_record(*m);
                }
                for i in 0..m.len()
                    invariant
                        *self == Json::Record(*m),
                        t == member_values(m@),
                        self.value() == JsonView::Object(t),
                        forall|k: int| 0 <= k < i ==> as_value((#[trigger] t[k]).1) is Some,
                {
                    assert(t[i as int] == (m@[i as int].0@, m@[i as int].1.value()));
                    if !m[i].1.is_readable() {
                        assert(as_value(t[i as int].1) is None);
                        return false;
                    }
                }
                true
            },
        }
    }

    /// The tree as a `serde_json::Value` would hold it.
    pub(crate) fn settled(&self) -> (r: Option<Json>)
        ensures
            match r {
                Some(v) => as_value(self.value()) == Some(v.value()),
                None => as_value(self.value()) is None,
            },
        decreases self,
    {
        match self {
            Json::Unread => None,
            Json::Scalar(v) => if is_scalar(v) {
                Some(Json::Scalar(copy_value(v)))
            } else {
                None
            },
            Json::List(a) => {
                let mut out: Vec<Json> = Vec::new();
                let ghost t = json_values(a@);
                proof {
                    lemma_list(*a);
                }
                for i in 0..a.len()
                    invariant
                        *self == Json::List(*a),
                        t == json_values(a@),
                        self.value() == JsonView::Array(t),
                        out@.len() == i,
                        forall|k: int| 0 <= k < i ==> as_value(#[trigger] t[k]) == Some(out@[k].value()),
                {
                    assert(t[i as int] == a@[i as int].value());
                    match a[i].settled() {
                        Some(v) => {
                            out.push(v);
                        },
                        None => {
                            assert(as_value(t[i as int]) is None);
                            return None;
                        },
                    }
                }
                proof {
                    lemma_list(out);
                    assert(json_values(out@) =~= as_value(JsonView::Array(t)).unwrap()->Array_0);
                }
                Some(Json::List(out))
            },
            Json::Record(m) => {
                let mut out: Vec<(String, Json)> = Vec::new();
                let ghost t = member_values(m@);
                let ghost mut done: Seq<(Seq<char>, JsonView)> = Seq::empty();
                proof {
                    lemma_record(*m);
                    assert(member_values(out@) =~= kept(done));
                }
                for i in 0..m.len()
                    invariant
                        *self == Json::Record(*m),
                        t == member_values(m@),
                        self.value() == JsonView::Object(t),
                        done.len() == i,
                        member_values(out@) == kept(done),
                        forall|k: int|
                            0 <= k < i ==> as_value((#[trigger] t[k]).1) == Some(done[k].1) && done[k].0 == t[k].0,
                {
                    assert(t[i as int] == (m@[i as int].0@, m@[i as int].1.value()));
                    match m[i].1.settled() {
                        Some(v) => {
                            proof {
                                let next = done.push((m@[i as int].0@, v.value()));
                                assert(next.drop_last() =~= done);
                                done = next;
                            }
                            keep(&mut out, &m[i].0, v);
                        },
                        None => {
                            assert(as_value(t[i as int].1) is None);
                            return None;
                        },
                    }
                }
                proof {
                    lemma_record(out);
                    assert(done =~= settled_members(t));
                }
                Some(Json::Record(out))
            },
        }
    }
}

/// Puts a member in place of one of the same name, or else behind the others.
fn keep(m: &mut Vec<(String, Json)>, key: &String, v: Json)
    ensures
        member_values(final(m)@) == put_member(member_values(old(m)@), key@, v.value()),
{
    let ghost t = member_values(m@);
    let ghost j = v.value();
    let n: usize = m.len();
    let mut i: usize = 0;
    assert(t.take(0) + put_member(t.skip(0), key@, j) =~= put_member(t, key@, j)) by {
        assert(t.skip(0) =~= t);
    }
    while i < n
        invariant
            n == m@.len(),
            m@ == old(m)@,
            t == member_values(m@),
            j == v.value(),
            i <= n,
            put_member(t, key@, j) == t.take(i as int) + put_member(t.skip(i as int), key@, j),
        decreases n - i,
    {
        proof {
            assert(t.skip(i as int)[0] == (m@[i as int].0@, m@[i as int].1.value()));
            assert(t.skip(i as int).drop_first() =~= t.skip(i + 1));
        }
        if m[i].0.as_str().eq(key.as_str()) {
            m.set(i, (key.clone(), v));
            assert(member_values(m@) =~= t.take(i as int) + (seq![(key@, j)] + t.skip(i + 1)));
            return;
        }
        proof {
            let here = seq![t[i as int]];
            assert(t.take(i as int) + (here + put_member(t.skip(i + 1), key@, j)) =~= t.take(i + 1) + put_member(
                t.skip(i + 1),
                key@,
                j,
            ));
        }
        i += 1;
    }
    m.push((key.clone(), v));
    assert(member_values(m@) =~= t.take(n as int) + seq![(key@, j)]);
}

/// A tree that can be printed and read back is as a `serde_json::Value` holds it.
pub proof fn law_plain_settled(j: JsonView, depth: nat)
    requires
        is_plain(j, depth),
    ensures
        as_value(j) == Some(j),
    decreases depth,
{
    match j {
        JsonView::Array(a) => {
            assert forall|i: int| 0 <= i < a.len() implies as_value(#[trigger] a[i]) == Some(a[i]) by {
                law_plain_settled(a[i], (depth - 1) as nat);
            }
            assert(as_value(j).unwrap()->Array_0 =~= a);
        },
        JsonView::Object(m) => {
            assert forall|i: int| 0 <= i < m.len() implies as_value((#[trigger] m[i]).1) == Some(m[i].1) by {
                law_plain_settled(m[i].1, (depth - 1) as nat);
            }
            assert(settled_members(m) =~= m);
            law_distinct_kept(m);
        },
        _ => {},
    }
}

} // verus!

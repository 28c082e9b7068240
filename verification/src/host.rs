//! What a host gives to MoonBit's WebAssembly guests: line-buffered output, strings that are
//! handed over one code unit at a time, arguments and an environment.
use vstd::prelude::*;
use vstd::slice::slice_subrange;
use crate::folded_export::{
    lemma_less_not_equal, lemma_less_total, lemma_less_trans, order_texts, text_less, Order,
};
use crate::native::le_value;
use crate::proto::texts;
use crate::resolve::opt_text;
use crate::text::chars_of;

verus! {

/// `char::from_u32` gives the character of a code point, and nothing for a surrogate or a
/// number beyond the last code point.
pub assume_specification[ char::from_u32 ](i: u32) -> (r: Option<char>)
    ensures
        match r {
            Some(c) => c as u32 == i,
            None => (0xd800 <= i && i <= 0xdfff) || i > 0x10ffff,
        },
        ((0xd800 <= i && i <= 0xdfff) || i > 0x10ffff) ==> r is None,
;

/// WASI's code for a bad file descriptor.
pub const ERRNO_BADF: i32 = 8;

/// WASI's code for an invalid argument.
pub const ERRNO_INVAL: i32 = 28;

/// What stands behind the last string of an array.
pub open spec fn end_of_array() -> Seq<char> {
    "ffi_end_of_/string_array"@
}

/// A variable of the environment. `None` hides it.
#[derive(Debug)]
pub struct EnvEntry {
    pub key: String,
    pub value: Option<String>,
}

/// The value of an [`EnvEntry`].
pub type EnvPair = (Seq<char>, Option<Seq<char>>);

impl View for EnvEntry {
    type V = EnvPair;

    open spec fn view(&self) -> EnvPair {
        (
            self.key@,
            match self.value {
                Some(s) => Some(s@),
                None => None,
            },
        )
    }
}

pub open spec fn env_views(s: Seq<EnvEntry>) -> Seq<EnvPair> {
    Seq::new(s.len(), |i: int| s[i]@)
}

/// Puts a variable in its place, instead of one of the same name.
pub open spec fn env_put(s: Seq<EnvPair>, x: EnvPair) -> Seq<EnvPair>
    decreases s.len(),
{
    if s.len() == 0 {
        seq![x]
    } else if s[0].0 == x.0 {
        seq![x] + s.drop_first()
    } else if text_less(x.0, s[0].0) {
        seq![x] + s
    } else {
        seq![s[0]] + env_put(s.drop_first(), x)
    }
}

/// What is said of a variable.
pub open spec fn env_get(s: Seq<EnvPair>, key: Seq<char>) -> Option<Option<Seq<char>>>
    decreases s.len(),
{
    if s.len() == 0 {
        None
    } else if s[0].0 == key {
        Some(s[0].1)
    } else {
        env_get(s.drop_first(), key)
    }
}

/// Whether the variables are in order of their names, each there once.
pub open spec fn env_ordered(s: Seq<EnvPair>) -> bool {
    forall|i: int, j: int| 0 <= i < j < s.len() ==> text_less(#[trigger] s[i].0, #[trigger] s[j].0)
}

/// Puts variables in one after the other.
pub open spec fn env_put_all(s: Seq<EnvPair>, more: Seq<EnvPair>) -> Seq<EnvPair>
    decreases more.len(),
{
    if more.len() == 0 {
        s
    } else {
        env_put(env_put_all(s, more.drop_last()), more.last())
    }
}

/// The variables that are not hidden, each as its name and its value.
pub open spec fn env_flat(s: Seq<EnvPair>) -> Seq<Seq<char>>
    decreases s.len(),
{
    if s.len() == 0 {
        Seq::empty()
    } else {
        match s.last().1 {
            Some(v) => env_flat(s.drop_last()).push(s.last().0).push(v),
            None => env_flat(s.drop_last()),
        }
    }
}

proof fn lemma_ordered_rest(s: Seq<EnvPair>)
    requires
        env_ordered(s),
        s.len() > 0,
    ensures
        env_ordered(s.drop_first()),
{
    let t = s.drop_first();
    assert forall|i: int, j: int| 0 <= i < j < t.len() implies text_less(#[trigger] t[i].0, #[trigger] t[j].0) by {
        assert(text_less(s[i + 1].0, s[j + 1].0));
    }
}

/// Each name of a result is the new one or was there.
proof fn lemma_put_names(s: Seq<EnvPair>, x: EnvPair)
    ensures
        forall|i: int|
            0 <= i < env_put(s, x).len() ==> (#[trigger] env_put(s, x)[i]).0 == x.0 || exists|j: int|
                0 <= j < s.len() && s[j].0 == env_put(s, x)[i].0,
    decreases s.len(),
{
    if s.len() > 0 && s[0].0 != x.0 && !text_less(x.0, s[0].0) {
        let t = s.drop_first();
        lemma_put_names(t, x);
        let r = env_put(s, x);
        assert forall|i: int| 0 <= i < r.len() implies (#[trigger] r[i]).0 == x.0 || exists|j: int|
            0 <= j < s.len() && s[j].0 == r[i].0 by {
            if i > 0 {
                assert(r[i] == env_put(t, x)[i - 1]);
                if r[i].0 != x.0 {
                    let j = choose|j: int| 0 <= j < t.len() && t[j].0 == r[i].0;
                    assert(s[j + 1].0 == r[i].0);
                }
            } else {
                assert(s[0].0 == r[0].0);
            }
        }
    } else if s.len() > 0 {
        let r = env_put(s, x);
        assert forall|i: int| 0 <= i < r.len() implies (#[trigger] r[i]).0 == x.0 || exists|j: int|
            0 <= j < s.len() && s[j].0 == r[i].0 by {
            if i > 0 {
                if s[0].0 == x.0 {
                    assert(s[i].0 == r[i].0);
                } else {
                    assert(s[i - 1].0 == r[i].0);
                }
            }
        }
    }
}

/// A variable that is put in keeps the order of the others.
pub proof fn law_put_ordered(s: Seq<EnvPair>, x: EnvPair)
    requires
        env_ordered(s),
    ensures
        env_ordered(env_put(s, x)),
    decreases s.len(),
{
    let r = env_put(s, x);
    if s.len() > 0 {
        let t = s.drop_first();
        lemma_ordered_rest(s);
        if s[0].0 == x.0 {
            assert forall|i: int, j: int| 0 <= i < j < r.len() implies text_less(
                #[trigger] r[i].0,
                #[trigger] r[j].0,
            ) by {
                assert(text_less(s[i].0, s[j].0));
            }
        } else if text_less(x.0, s[0].0) {
            assert forall|i: int, j: int| 0 <= i < j < r.len() implies text_less(
                #[trigger] r[i].0,
                #[trigger] r[j].0,
            ) by {
                if i > 0 {
                    assert(text_less(s[i - 1].0, s[j - 1].0));
                } else if j > 1 {
                    assert(text_less(s[0].0, s[j - 1].0));
                    lemma_less_trans(x.0, s[0].0, s[j - 1].0);
                }
            }
        } else {
            law_put_ordered(t, x);
            lemma_put_names(t, x);
            lemma_less_total(x.0, s[0].0);
            let u = env_put(t, x);
            assert forall|i: int, j: int| 0 <= i < j < r.len() implies text_less(
                #[trigger] r[i].0,
                #[trigger] r[j].0,
            ) by {
                if i > 0 {
                    assert(text_less(u[i - 1].0, u[j - 1].0));
                } else {
                    assert(r[j] == u[j - 1]);
                    if u[j - 1].0 != x.0 {
                        let k = choose|k: int| 0 <= k < t.len() && t[k].0 == u[j - 1].0;
                        assert(text_less(s[0].0, s[k + 1].0));
                    }
                }
            }
        }
    }
}

/// A variable that is put in is found again, and the others are not touched.
pub proof fn law_put_get(s: Seq<EnvPair>, x: EnvPair, key: Seq<char>)
    requires
        env_ordered(s),
    ensures
        env_get(env_put(s, x), key) == if key == x.0 {
            Some(x.1)
        } else {
            env_get(s, key)
        },
    decreases s.len(),
{
    let r = env_put(s, x);
    if s.len() == 0 {
        assert(r[0] == x);
        assert(r.drop_first() =~= s);
    } else {
        let t = s.drop_first();
        lemma_ordered_rest(s);
        if s[0].0 == x.0 {
            assert(r[0] == x);
            assert(r.drop_first() =~= t);
        } else if text_less(x.0, s[0].0) {
            assert(r[0] == x);
            assert(r.drop_first() =~= s);
        } else {
            assert(r[0] == s[0]);
            assert(r.drop_first() =~= env_put(t, x));
            law_put_get(t, x, key);
        }
    }
}

/// The variables of a host with those that the guest has set and unset.
pub open spec fn guest_env(outside: Seq<EnvPair>, overrides: Seq<EnvPair>) -> Seq<EnvPair> {
    env_put_all(env_put_all(Seq::empty(), outside), overrides)
}

/// What the guest sees of a variable, of which the host's environment says `outside`.
pub open spec fn guest_value(
    overrides: Seq<EnvPair>,
    key: Seq<char>,
    outside: Option<Seq<char>>,
) -> Option<Seq<char>> {
    match env_get(overrides, key) {
        Some(v) => v,
        None => outside,
    }
}

/// The value of a variable in a host's environment.
pub open spec fn host_value(outside: Seq<EnvPair>, key: Seq<char>) -> Option<Seq<char>> {
    match env_get(outside, key) {
        Some(v) => v,
        None => None,
    }
}

/// Whether no two variables have the same name.
pub open spec fn env_distinct(s: Seq<EnvPair>) -> bool {
    forall|i: int, j: int| 0 <= i < j < s.len() ==> (#[trigger] s[i]).0 != (#[trigger] s[j]).0
}

/// Whether a list of names and values holds a name with a value.
pub open spec fn lists(r: Seq<Seq<char>>, key: Seq<char>, value: Seq<char>) -> bool {
    exists|i: int| 0 <= i && 2 * i + 1 < r.len() && #[trigger] r[2 * i] == key && r[2 * i + 1] == value
}

proof fn lemma_get_last(s: Seq<EnvPair>, key: Seq<char>)
    requires
        s.len() > 0,
        env_distinct(s),
    ensures
        env_get(s, key) == if s.last().0 == key {
            Some(s.last().1)
        } else {
            env_get(s.drop_last(), key)
        },
    decreases s.len(),
{
    if s.len() > 1 {
        let t = s.drop_first();
        assert forall|i: int, j: int| 0 <= i < j < t.len() implies (#[trigger] t[i]).0 != (#[trigger] t[j]).0 by {
            assert(s[i + 1].0 != s[j + 1].0);
        }
        lemma_get_last(t, key);
        assert(t.drop_last() =~= s.drop_last().drop_first());
        assert(s[0].0 != s[s.len() - 1].0);
    } else {
        assert(env_get(s.drop_first(), key) is None);
        assert(env_get(s.drop_last(), key) is None);
    }
}

proof fn lemma_put_all(s: Seq<EnvPair>, more: Seq<EnvPair>, key: Seq<char>)
    requires
        env_ordered(s),
        env_distinct(more),
    ensures
        env_ordered(env_put_all(s, more)),
        env_get(env_put_all(s, more), key) == match env_get(more, key) {
            Some(v) => Some(v),
            None => env_get(s, key),
        },
    decreases more.len(),
{
    if more.len() > 0 {
        let front = more.drop_last();
        assert forall|i: int, j: int| 0 <= i < j < front.len() implies (#[trigger] front[i]).0 != (
        #[trigger] front[j]).0 by {
            assert(more[i].0 != more[j].0);
        }
        lemma_put_all(s, front, key);
        law_put_ordered(env_put_all(s, front), more.last());
        law_put_get(env_put_all(s, front), more.last(), key);
        lemma_get_last(more, key);
    }
}

proof fn lemma_flat(s: Seq<EnvPair>)
    requires
        env_ordered(s),
    ensures
        env_flat(s).len() % 2 == 0,
        forall|i: int|
            #![trigger env_flat(s)[2 * i]]
            0 <= i && 2 * i < env_flat(s).len() ==> exists|k: int|
                0 <= k < s.len() && s[k] == (env_flat(s)[2 * i], Some(env_flat(s)[2 * i + 1])),
        forall|i: int, j: int|
            #![trigger env_flat(s)[2 * i], env_flat(s)[2 * j]]
            0 <= i < j && 2 * j < env_flat(s).len() ==> text_less(env_flat(s)[2 * i], env_flat(s)[2 * j]),
    decreases s.len(),
{
    if s.len() > 0 {
        let front = s.drop_last();
        let n = s.len() - 1;
        assert forall|i: int, j: int| 0 <= i < j < front.len() implies text_less(
            #[trigger] front[i].0,
            #[trigger] front[j].0,
        ) by {
            assert(text_less(s[i].0, s[j].0));
        }
        lemma_flat(front);
        let f = env_flat(front);
        let r = env_flat(s);
        assert forall|i: int| #![trigger r[2 * i]] 0 <= i && 2 * i < r.len() implies exists|k: int|
            0 <= k < s.len() && s[k] == (r[2 * i], Some(r[2 * i + 1])) by {
            if 2 * i < f.len() {
                assert(f[2 * i] == r[2 * i] && f[2 * i + 1] == r[2 * i + 1]);
                let k = choose|k: int| 0 <= k < front.len() && front[k] == (f[2 * i], Some(f[2 * i + 1]));
                assert(s[k] == (r[2 * i], Some(r[2 * i + 1])));
            } else {
                assert(s[n] == (r[2 * i], Some(r[2 * i + 1])));
            }
        }
        assert forall|i: int, j: int| #![trigger r[2 * i], r[2 * j]] 0 <= i < j && 2 * j < r.len() implies text_less(
            r[2 * i],
            r[2 * j],
        ) by {
            assert(f[2 * i] == r[2 * i] && f[2 * i + 1] == r[2 * i + 1]);
            if 2 * j < f.len() {
                assert(f[2 * j] == r[2 * j]);
            } else {
                let k = choose|k: int| 0 <= k < front.len() && front[k] == (f[2 * i], Some(f[2 * i + 1]));
                assert(s[k].0 == r[2 * i]);
                assert(s[n].0 == r[2 * j]);
                assert(text_less(s[k].0, s[n].0));
            }
        }
    }
}

proof fn lemma_flat_lists(s: Seq<EnvPair>, key: Seq<char>, value: Seq<char>)
    requires
        env_ordered(s),
    ensures
        lists(env_flat(s), key, value) <==> env_get(s, key) == Some(Some(value)),
    decreases s.len(),
{
    let r = env_flat(s);
    if s.len() > 0 {
        let front = s.drop_last();
        let n = s.len() - 1;
        assert forall|i: int, j: int| 0 <= i < j < front.len() implies text_less(
            #[trigger] front[i].0,
            #[trigger] front[j].0,
        ) by {
            assert(text_less(s[i].0, s[j].0));
        }
        assert forall|i: int, j: int| 0 <= i < j < s.len() implies (#[trigger] s[i]).0 != (#[trigger] s[j]).0 by {
            lemma_less_not_equal(s[i].0, s[j].0);
        }
        lemma_get_last(s, key);
        lemma_flat_lists(front, key, value);
        lemma_flat(front);
        let f = env_flat(front);
        if lists(f, key, value) {
            let i = choose|i: int| 0 <= i && 2 * i + 1 < f.len() && #[trigger] f[2 * i] == key && f[2 * i + 1] == value;
            assert(r[2 * i] == key && r[2 * i + 1] == value);
            let k = choose|k: int| 0 <= k < front.len() && front[k] == (f[2 * i], Some(f[2 * i + 1]));
            assert(s[k].0 == key);
            assert(s[k].0 != s[n].0);
        }
        if lists(r, key, value) {
            let i = choose|i: int| 0 <= i && 2 * i + 1 < r.len() && #[trigger] r[2 * i] == key && r[2 * i + 1] == value;
            if 2 * i < f.len() {
                assert(f[2 * i] == key && f[2 * i + 1] == value);
            }
        }
        if s[n].1 is Some {
            let h = f.len() as int / 2;
            assert(r[2 * h] == s[n].0 && r[2 * h + 1] == s[n].1.unwrap());
        }
    }
}

/// The guest's list of variables holds each name once, in order, and holds a name with a
/// value exactly where the guest that asks for the name alone is given that value. The host
/// has one value per name.
pub proof fn law_env_listing(outside: Seq<EnvPair>, overrides: Seq<EnvPair>)
    requires
        env_distinct(outside),
        env_ordered(overrides),
    ensures
        ({
            let r = env_flat(guest_env(outside, overrides));
            &&& r.len() % 2 == 0
            &&& forall|i: int, j: int|
                #![trigger r[2 * i], r[2 * j]]
                0 <= i < j && 2 * j < r.len() ==> text_less(r[2 * i], r[2 * j])
            &&& forall|key: Seq<char>, value: Seq<char>|
                #[trigger] lists(r, key, value) <==> guest_value(overrides, key, host_value(outside, key)) == Some(
                    value,
                )
        }),
{
    let base = env_put_all(Seq::empty(), outside);
    let all = guest_env(outside, overrides);
    let r = env_flat(all);
    assert forall|i: int, j: int| 0 <= i < j < overrides.len() implies (#[trigger] overrides[i]).0 != (
    #[trigger] overrides[j]).0 by {
        lemma_less_not_equal(overrides[i].0, overrides[j].0);
    }
    lemma_put_all(Seq::empty(), outside, Seq::empty());
    lemma_put_all(base, overrides, Seq::empty());
    lemma_flat(all);
    assert forall|key: Seq<char>, value: Seq<char>|
        #[trigger] lists(r, key, value) <==> guest_value(overrides, key, host_value(outside, key)) == Some(
            value,
        ) by {
        lemma_put_all(Seq::empty(), outside, key);
        lemma_put_all(base, overrides, key);
        lemma_flat_lists(all, key, value);
    }
}

/// Puts a variable in its place.
fn put(v: &mut Vec<EnvEntry>, x: EnvEntry)
    ensures
        env_views(final(v)@) == env_put(env_views(old(v)@), x@),
{
    let ghost s = env_views(v@);
    let ghost xv = x@;
    let k = chars_of(x.key.as_str());
    let mut i: usize = 0;
    assert(s.skip(0) =~= s);
    assert(s.take(0) + env_put(s.skip(0), xv) =~= env_put(s, xv));
    while i < v.len()
        invariant
            i <= v@.len(),
            s == env_views(v@),
            v@ == old(v)@,
            k@ == xv.0,
            xv == x@,
            env_put(s, xv) == s.take(i as int) + env_put(s.skip(i as int), xv),
        decreases v@.len() - i,
    {
        let ghost rest = s.skip(i as int);
        proof {
            assert(rest[0] == v@[i as int]@);
            assert(rest.drop_first() =~= s.skip(i + 1));
        }
        let here = chars_of(v[i].key.as_str());
        match order_texts(k.as_slice(), here.as_slice()) {
            Order::Equal => {
                let _ = v.remove(i);
                v.insert(i, x);
                assert(env_views(v@) =~= s.take(i as int) + (seq![xv] + rest.drop_first()));
                return;
            },
            Order::Less => {
                v.insert(i, x);
                assert(env_views(v@) =~= s.take(i as int) + (seq![xv] + rest));
                return;
            },
            Order::Greater => {
                assert(s.take(i as int) + (seq![rest[0]] + env_put(rest.drop_first(), xv)) =~= s.take(i + 1)
                    + env_put(s.skip(i + 1), xv));
            },
        }
        i += 1;
    }
    assert(s.skip(i as int) =~= Seq::empty());
    v.push(x);
    assert(env_views(v@) =~= s.take(i as int) + seq![xv]);
}

/// What is said of a variable.
fn get(v: &Vec<EnvEntry>, key: &str) -> (r: Option<usize>)
    ensures
        match r {
            Some(i) => i < v@.len() && env_get(env_views(v@), key@) == Some(v@[i as int]@.1),
            None => env_get(env_views(v@), key@) is None,
        },
{
    let ghost s = env_views(v@);
    assert(s.skip(0) =~= s);
    for i in 0..v.len()
        invariant
            s == env_views(v@),
            env_get(s, key@) == env_get(s.skip(i as int), key@),
    {
        assert(s.skip(i as int)[0] == v@[i as int]@);
        assert(s.skip(i as int).drop_first() =~= s.skip(i + 1));
        if v[i].key.as_str().eq(key) {
            return Some(i);
        }
    }
    assert(s.skip(v@.len() as int) =~= Seq::empty());
    None
}

/// The bytes behind the last line end.
pub open spec fn open_line(b: Seq<u8>) -> Seq<u8>
    decreases b.len(),
{
    if b.len() == 0 || b.last() == 10 {
        Seq::empty()
    } else {
        open_line(b.drop_last()).push(b.last())
    }
}

/// The lines that are complete, without their ends.
pub open spec fn full_lines(b: Seq<u8>) -> Seq<Seq<u8>>
    decreases b.len(),
{
    if b.len() == 0 {
        Seq::empty()
    } else if b.last() == 10 {
        full_lines(b.drop_last()).push(open_line(b.drop_last()))
    } else {
        full_lines(b.drop_last())
    }
}

/// Lines with their ends.
pub open spec fn with_ends(l: Seq<Seq<u8>>) -> Seq<u8>
    decreases l.len(),
{
    if l.len() == 0 {
        Seq::empty()
    } else {
        with_ends(l.drop_last()) + l.last() + seq![10u8]
    }
}

/// No byte is lost and none is made up: the complete lines and what is behind them are what
/// was written.
pub proof fn law_lines_keep_bytes(b: Seq<u8>)
    ensures
        with_ends(full_lines(b)) + open_line(b) == b,
        forall|i: int| 0 <= i < open_line(b).len() ==> #[trigger] open_line(b)[i] != 10,
    decreases b.len(),
{
    if b.len() > 0 {
        let front = b.drop_last();
        law_lines_keep_bytes(front);
        if b.last() == 10 {
            let l = full_lines(front);
            assert(l.push(open_line(front)).drop_last() =~= l);
            assert(with_ends(full_lines(b)) + open_line(b) =~= front + seq![10u8]);
            assert(front + seq![10u8] =~= b);
        } else {
            assert(with_ends(full_lines(b)) + open_line(b) =~= front.push(b.last()));
            assert(front.push(b.last()) =~= b);
        }
    } else {
        assert(with_ends(full_lines(b)) + open_line(b) =~= b);
    }
}

/// What is written in two parts comes out as if it were written in one.
pub proof fn law_parts(a: Seq<u8>, b: Seq<u8>)
    ensures
        full_lines(a + b) == full_lines(a) + full_lines(open_line(a) + b),
        open_line(a + b) == open_line(open_line(a) + b),
    decreases b.len(),
{
    if b.len() == 0 {
        assert(a + b =~= a);
        assert(open_line(a) + b =~= open_line(a));
        lemma_open_line(a);
        assert(full_lines(a) + Seq::<Seq<u8>>::empty() =~= full_lines(a));
    } else {
        let c = b.drop_last();
        law_parts(a, c);
        assert((a + b).drop_last() =~= a + c);
        assert((open_line(a) + b).drop_last() =~= open_line(a) + c);
        assert(full_lines(a + b) =~= full_lines(a) + full_lines(open_line(a) + b));
    }
}

proof fn lemma_open_line(a: Seq<u8>)
    ensures
        full_lines(open_line(a)) == Seq::<Seq<u8>>::empty(),
        open_line(open_line(a)) == open_line(a),
    decreases a.len(),
{
    if a.len() > 0 && a.last() != 10 {
        lemma_open_line(a.drop_last());
        assert(open_line(a).drop_last() =~= open_line(a.drop_last()));
        assert(open_line(a).last() == a.last());
    }
}

/// What a guest writes: the parts of its memory that a list of addresses and lengths names.
/// `None` stands for one that is not in the memory.
pub open spec fn gathered(data: Seq<u8>, at: int, n: nat) -> Option<Seq<u8>>
    decreases n,
{
    if n == 0 {
        Some(Seq::empty())
    } else {
        let e = at + (n - 1) * 8;
        match gathered(data, at, (n - 1) as nat) {
            None => None,
            Some(front) => if e < 0 || e + 8 > data.len() {
                None
            } else {
                let from = le_value(data.subrange(e, e + 4));
                let len = le_value(data.subrange(e + 4, e + 8));
                if from + len > data.len() {
                    None
                } else {
                    Some(front + data.subrange(from as int, (from + len) as int))
                }
            },
        }
    }
}

/// The parts of a guest's memory that a list names. A negative address or count is not in
/// the memory.
pub open spec fn payload(data: Seq<u8>, iovs_ptr: i32, iovs_len: i32) -> Option<Seq<u8>> {
    if iovs_len < 0 {
        None
    } else {
        gathered(data, iovs_ptr as int, iovs_len as nat)
    }
}

/// What a write does.
#[derive(Debug)]
pub struct Written {
    /// The number of bytes, modulo 32 bits.
    pub total: u32,
    /// The lines that are complete now.
    pub lines: Vec<Vec<u8>>,
}

pub open spec fn line_views(s: Seq<Vec<u8>>) -> Seq<Seq<u8>> {
    Seq::new(s.len(), |i: int| s[i]@)
}

fn read_u32(data: &[u8], at: usize) -> (r: u32)
    requires
        at + 4 <= data@.len(),
    ensures
        r == le_value(data@.subrange(at as int, at + 4)),
{
    let all: usize = data.len();
    let b0: u32 = data[at] as u32;
    let b1: u32 = data[at + 1] as u32;
    let b2: u32 = data[at + 2] as u32;
    let b3: u32 = data[at + 3] as u32;
    proof {
        let s = data@.subrange(at as int, at + 4);
        assert(s.drop_first() =~= data@.subrange(at + 1, at + 4));
        assert(s.drop_first().drop_first() =~= data@.subrange(at + 2, at + 4));
        assert(s.drop_first().drop_first().drop_first() =~= data@.subrange(at + 3, at + 4));
        assert(data@.subrange(at + 3, at + 4).drop_first() =~= Seq::empty());
        reveal_with_fuel(le_value, 5);
    }
    b0 + 256 * (b1 + 256 * (b2 + 256 * b3))
}

/// Gathers what a guest writes.
fn gather(data: &[u8], iovs_ptr: i32, iovs_len: i32) -> (r: Option<Vec<u8>>)
    ensures
        match r {
            Some(b) => payload(data@, iovs_ptr, iovs_len) == Some(b@),
            None => payload(data@, iovs_ptr, iovs_len) is None,
        },
{
    if iovs_len < 0 {
        return None;
    }
    let n: u32 = iovs_len as u32;
    let mut out: Vec<u8> = Vec::new();
    for i in 0..n
        invariant
            n == iovs_len,
            gathered(data@, iovs_ptr as int, i as nat) == Some(out@),
    {
        let entry: i128 = iovs_ptr as i128 + i as i128 * 8;
        if entry < 0 || entry + 8 > data.len() as i128 {
            proof {
                lemma_gather_stops(data@, iovs_ptr as int, (i + 1) as nat, n as nat);
            }
            return None;
        }
        let e: usize = entry as usize;
        let from: u32 = read_u32(data, e);
        let len: u32 = read_u32(data, e + 4);
        if from as u64 + len as u64 > data.len() as u64 {
            proof {
                lemma_gather_stops(data@, iovs_ptr as int, (i + 1) as nat, n as nat);
            }
            return None;
        }
        let ghost before = out@;
        let part = slice_subrange(data, from as usize, from as usize + len as usize);
        out.extend_from_slice(part);
        assert(out@ =~= before + data@.subrange(from as int, from + len));
    }
    Some(out)
}

proof fn lemma_gather_stops(data: Seq<u8>, at: int, k: nat, n: nat)
    requires
        k <= n,
        gathered(data, at, k) is None,
    ensures
        gathered(data, at, n) is None,
    decreases n,
{
    if k < n {
        lemma_gather_stops(data, at, k, (n - 1) as nat);
    }
}

/// What a host keeps for a guest.
#[derive(Debug)]
pub struct MoonbitStdioState {
    /// The code units of a line that is not complete.
    pub line_utf16: Vec<u16>,
    /// The bytes of a line that is not complete.
    pub stdout_bytes: Vec<u8>,
    /// The guest's arguments.
    pub args: Vec<String>,
    /// What the guest has set and unset in its environment, in order of the names.
    pub env_overrides: Vec<EnvEntry>,
}

impl Default for MoonbitStdioState {
    fn default() -> (r: MoonbitStdioState)
        ensures
            r.line_utf16@.len() == 0,
            r.stdout_bytes@.len() == 0,
            r.args@.len() == 0,
            r.env_overrides@.len() == 0,
    {
        MoonbitStdioState {
            line_utf16: Vec::new(),
            stdout_bytes: Vec::new(),
            args: Vec::new(),
            env_overrides: Vec::new(),
        }
    }
}

/// Gives access to what a host keeps for a guest.
pub trait MoonbitStdio {
    fn moonbit_stdio(&mut self) -> &mut MoonbitStdioState;
}

impl MoonbitStdioState {
    pub open spec fn wf(&self) -> bool {
        env_ordered(env_views(self.env_overrides@))
    }

    /// Takes one code unit of output. A line feed completes the line, which is handed out.
    pub fn print_char(&mut self, code: i32) -> (r: Option<Vec<u16>>)
        ensures
            final(self).stdout_bytes == old(self).stdout_bytes,
            final(self).args == old(self).args,
            final(self).env_overrides == old(self).env_overrides,
            if code == 10 {
                r == Some(old(self).line_utf16) && final(self).line_utf16@.len() == 0
            } else {
                r is None && final(self).line_utf16@ == old(self).line_utf16@.push(
                    #[verifier::truncate] (code as u16),
                )
            },
    {
        if code == 10 {
            let mut line: Vec<u16> = Vec::new();
            std::mem::swap(&mut line, &mut self.line_utf16);
            Some(line)
        } else {
            self.line_utf16.push(#[verifier::truncate] (code as u16));
            None
        }
    }

    /// Takes what a guest writes, and hands out the lines that are complete. The error is
    /// WASI's.
    pub fn fd_write(&mut self, data: &[u8], iovs_ptr: i32, iovs_len: i32) -> (r: Result<Written, i32>)
        ensures
            final(self).line_utf16 == old(self).line_utf16,
            final(self).args == old(self).args,
            final(self).env_overrides == old(self).env_overrides,
            match payload(data@, iovs_ptr, iovs_len) {
                None => r == Err::<Written, i32>(28) && final(self).stdout_bytes == old(self).stdout_bytes,
                Some(b) => {
                    let all = old(self).stdout_bytes@ + b;
                    &&& r matches Ok(w)
                    &&& r->Ok_0.total == b.len() % 0x1_0000_0000
                    &&& line_views(r->Ok_0.lines@) == full_lines(all)
                    &&& final(self).stdout_bytes@ == open_line(all)
                },
            },
    {
        let part = match gather(data, iovs_ptr, iovs_len) {
            Some(b) => b,
            None => {
                return Err(ERRNO_INVAL);
            },
        };
        let ghost old_bytes = self.stdout_bytes@;
        let total: u32 = (part.len() as u64 % 0x1_0000_0000) as u32;
        let mut all: Vec<u8> = Vec::new();
        std::mem::swap(&mut all, &mut self.stdout_bytes);
        let mut part = part;
        let ghost part_v = part@;
        all.append(&mut part);
        assert(all@ =~= old_bytes + part_v);
        let mut lines: Vec<Vec<u8>> = Vec::new();
        let mut line: Vec<u8> = Vec::new();
        assert(line_views(lines@) =~= full_lines(all@.take(0)));
        assert(line@ =~= open_line(all@.take(0)));
        for i in 0..all.len()
            invariant
                line_views(lines@) == full_lines(all@.take(i as int)),
                line@ == open_line(all@.take(i as int)),
        {
            proof {
                assert(all@.take(i + 1).drop_last() =~= all@.take(i as int));
                assert(all@.take(i + 1).last() == all@[i as int]);
            }
            if all[i] == 10 {
                let ghost before = line_views(lines@);
                let ghost l = line@;
                lines.push(line);
                line = Vec::new();
                assert(line_views(lines@) =~= before.push(l));
                assert(line@ =~= Seq::empty());
            } else {
                line.push(all[i]);
            }
        }
        assert(all@.take(all@.len() as int) =~= all@);
        self.stdout_bytes = line;
        Ok(Written { total, lines })
    }

    /// The guest's view of a variable, of which the host's environment says `outside`.
    pub fn guest_env_var(&self, key: &str, outside: Option<String>) -> (r: Option<String>)
        ensures
            match env_get(env_views(self.env_overrides@), key@) {
                Some(Some(v)) => r matches Some(s) && s@ == v,
                Some(None) => r is None,
                None => r == outside,
            },
            opt_text(r) == guest_value(env_views(self.env_overrides@), key@, opt_text(outside)),
    {
        match get(&self.env_overrides, key) {
            Some(i) => match &self.env_overrides[i].value {
                Some(v) => Some(v.clone()),
                None => None,
            },
            None => outside,
        }
    }

    /// Sets a variable for the guest.
    pub fn set_env_var(&mut self, key: String, value: String)
        requires
            old(self).wf(),
        ensures
            final(self).wf(),
            env_views(final(self).env_overrides@) == env_put(
                env_views(old(self).env_overrides@),
                (key@, Some(value@)),
            ),
            final(self).line_utf16 == old(self).line_utf16,
            final(self).stdout_bytes == old(self).stdout_bytes,
            final(self).args == old(self).args,
    {
        proof {
            law_put_ordered(env_views(self.env_overrides@), (key@, Some(value@)));
        }
        put(&mut self.env_overrides, EnvEntry { key, value: Some(value) });
    }

    /// Hides a variable from the guest.
    pub fn unset_env_var(&mut self, key: String)
        requires
            old(self).wf(),
        ensures
            final(self).wf(),
            env_views(final(self).env_overrides@) == env_put(env_views(old(self).env_overrides@), (key@, None)),
            final(self).line_utf16 == old(self).line_utf16,
            final(self).stdout_bytes == old(self).stdout_bytes,
            final(self).args == old(self).args,
    {
        proof {
            law_put_ordered(env_views(self.env_overrides@), (key@, None));
        }
        put(&mut self.env_overrides, EnvEntry { key, value: None });
    }

    /// The guest's environment as names and values, in order of the names. `outside` is the
    /// host's.
    pub fn guest_env_vars(&self, outside: Vec<EnvEntry>) -> (r: Vec<String>)
        ensures
            texts(r@) == env_flat(guest_env(env_views(outside@), env_views(self.env_overrides@))),
    {
        let ghost ov = env_views(outside@);
        let mut env: Vec<EnvEntry> = Vec::new();
        assert(env_views(env@) =~= env_put_all(Seq::empty(), ov.take(0)));
        for x in it: outside
            invariant
                it.seq() == outside@,
                ov == env_views(outside@),
                env_views(env@) == env_put_all(Seq::empty(), ov.take(it.index() as int)),
        {
            proof {
                let i = it.index() as int;
                assert(ov.take(i + 1).drop_last() =~= ov.take(i));
                assert(ov.take(i + 1).last() == x@);
            }
            put(&mut env, x);
        }
        assert(ov.take(ov.len() as int) =~= ov);
        let ghost base = env_views(env@);
        let ghost mine = env_views(self.env_overrides@);
        assert(env_put_all(base, mine.take(0)) =~= base);
        for i in 0..self.env_overrides.len()
            invariant
                mine == env_views(self.env_overrides@),
                env_views(env@) == env_put_all(base, mine.take(i as int)),
        {
            let e = &self.env_overrides[i];
            let copy = EnvEntry {
                key: e.key.clone(),
                value: match &e.value {
                    Some(s) => Some(s.clone()),
                    None => None,
                },
            };
            proof {
                assert(mine.take(i + 1).drop_last() =~= mine.take(i as int));
                assert(mine.take(i + 1).last() == self.env_overrides@[i as int]@);
                assert(copy@ == self.env_overrides@[i as int]@);
            }
            put(&mut env, copy);
        }
        assert(mine.take(mine.len() as int) =~= mine);
        let ghost all = env_views(env@);
        let mut r: Vec<String> = Vec::new();
        assert(texts(r@) =~= env_flat(all.take(0)));
        for i in 0..env.len()
            invariant
                all == env_views(env@),
                texts(r@) == env_flat(all.take(i as int)),
        {
            let ghost before = texts(r@);
            proof {
                assert(all.take(i + 1).drop_last() =~= all.take(i as int));
                assert(all.take(i + 1).last() == env@[i as int]@);
            }
            if let Some(v) = &env[i].value {
                r.push(env[i].key.clone());
                r.push(v.clone());
                assert(texts(r@) =~= before.push(env@[i as int].key@).push(v@));
            }
        }
        assert(all.take(all.len() as int) =~= all);
        r
    }
}

/// Where the number of written bytes goes in a memory of this size, if it is within it.
pub fn nwritten_at(nwritten_ptr: i32, memory_len: usize) -> (r: Option<usize>)
    ensures
        match r {
            Some(p) => p == nwritten_ptr && p + 4 <= memory_len,
            None => nwritten_ptr < 0 || nwritten_ptr + 4 > memory_len,
        },
{
    if nwritten_ptr < 0 || nwritten_ptr as i128 + 4 > memory_len as i128 {
        None
    } else {
        Some(nwritten_ptr as usize)
    }
}

/// The lower 16 bits of a number.
pub open spec fn code_unit(ch: i32) -> u16 {
    ((ch as int) % 0x1_0000) as u16
}

/// The character of a code unit. Half of a surrogate pair gives the replacement character.
pub open spec fn is_char_of(c: char, unit: u16) -> bool {
    if 0xd800 <= unit && unit <= 0xdfff {
        c == '\u{fffd}'
    } else {
        c as u32 == unit as u32
    }
}

/// Puts a code unit behind a string that is being made.
pub fn string_append_char(writer: &mut String, ch: i32)
    ensures
        exists|c: char| #[trigger] is_char_of(c, code_unit(ch)) && final(writer)@ == old(writer)@.push(c),
{
    let unit: i64 = (ch as i64) % 0x1_0000;
    let unit: u32 = if unit < 0 {
        (unit + 0x1_0000) as u32
    } else {
        unit as u32
    };
    assert(unit == (ch as int) % 0x1_0000);
    match char::from_u32(unit) {
        Some(c) => {
            assert(is_char_of(c, code_unit(ch)));
            writer.push(c);
        },
        None => {
            let c: char = '\u{fffd}';
            assert(is_char_of(c, code_unit(ch)));
            writer.push(c);
        },
    }
}

/// The code units of a character.
pub open spec fn units_of(c: char) -> Seq<u16> {
    let n = c as u32 as int;
    if n < 0x1_0000 {
        seq![n as u16]
    } else {
        seq![(0xd800 + (n - 0x1_0000) / 0x400) as u16, (0xdc00 + (n - 0x1_0000) % 0x400) as u16]
    }
}

/// The code units of a text.
pub open spec fn utf16(s: Seq<char>) -> Seq<u16>
    decreases s.len(),
{
    if s.len() == 0 {
        Seq::empty()
    } else {
        utf16(s.drop_last()) + units_of(s.last())
    }
}

/// A code unit that a guest puts behind a string is read back as it was, unless it is half
/// of a surrogate pair.
pub proof fn law_units_read_back(s: Seq<char>, c: char, unit: u16)
    requires
        is_char_of(c, unit),
        !(0xd800 <= unit && unit <= 0xdfff),
    ensures
        utf16(s.push(c)) == utf16(s).push(unit),
{
    assert(s.push(c).drop_last() =~= s);
    assert(utf16(s) + seq![unit] =~= utf16(s).push(unit));
}

/// Puts the code units of a character behind others.
fn push_units(units: &mut Vec<u16>, c: char)
    ensures
        final(units)@ == old(units)@ + units_of(c),
{
    let n: u32 = c as u32;
    if n < 0x1_0000 {
        units.push(n as u16);
    } else {
        units.push((0xd800 + (n - 0x1_0000) / 0x400) as u16);
        units.push((0xdc00 + (n - 0x1_0000) % 0x400) as u16);
    }
    assert(units@ =~= old(units)@ + units_of(c));
}

/// Reads a string one code unit at a time.
#[derive(Debug)]
pub struct StringReader {
    pub chars: Vec<u16>,
    pub pos: usize,
}

impl StringReader {
    /// A reader at the start of a string.
    pub fn new(text: &str) -> (r: StringReader)
        ensures
            r.chars@ == utf16(text@),
            r.pos == 0,
    {
        let s = chars_of(text);
        let mut chars: Vec<u16> = Vec::new();
        assert(chars@ =~= utf16(s@.take(0)));
        for i in 0..s.len()
            invariant
                chars@ == utf16(s@.take(i as int)),
        {
            proof {
                assert(s@.take(i + 1).drop_last() =~= s@.take(i as int));
                assert(s@.take(i + 1).last() == s@[i as int]);
            }
            push_units(&mut chars, s[i]);
        }
        assert(s@.take(s@.len() as int) =~= s@);
        StringReader { chars, pos: 0 }
    }

    /// The next code unit, or -1 behind the last one.
    pub fn read_char(&mut self) -> (r: i32)
        ensures
            final(self).chars == old(self).chars,
            if old(self).pos < old(self).chars@.len() {
                r == old(self).chars@[old(self).pos as int] && final(self).pos == old(self).pos + 1
            } else {
                r == -1 && final(self).pos == old(self).pos
            },
    {
        if self.pos >= self.chars.len() {
            -1
        } else {
            let c: i32 = self.chars[self.pos] as i32;
            self.pos = self.pos + 1;
            c
        }
    }
}

/// Reads an array one string at a time.
#[derive(Debug)]
pub struct StringArrayReader {
    pub values: Vec<String>,
    pub pos: usize,
}

impl StringArrayReader {
    /// The next string, or a fixed text behind the last one.
    pub fn read_string(&mut self) -> (r: String)
        ensures
            final(self).values == old(self).values,
            if old(self).pos < old(self).values@.len() {
                r@ == old(self).values@[old(self).pos as int]@ && final(self).pos == old(self).pos + 1
            } else {
                r@ == end_of_array() && final(self).pos == old(self).pos
            },
    {
        if self.pos >= self.values.len() {
            "ffi_end_of_/string_array".to_owned()
        } else {
            let s = self.values[self.pos].clone();
            self.pos = self.pos + 1;
            s
        }
    }
}

/// Milliseconds as a guest takes them: the largest number stands for any beyond it.
pub fn guest_millis(millis: u128) -> (r: i64)
    ensures
        r == if millis <= i64::MAX {
            millis as int
        } else {
            i64::MAX as int
        },
{
    if millis <= i64::MAX as u128 {
        millis as i64
    } else {
        i64::MAX
    }
}

} // verus!

//! Decode MoonBit's symbol mangling into a readable path.
//!
//! A mangled symbol ends in segments `<decimal length><identifier of that
//! length>`, with structural markers and count digits before them. The segments
//! are read from the right end, so that the leading count digit of `26mizchi5bench`
//! is not taken for a part of the next length. Impl, trait and generic
//! decorations are decoded in part: readable, not lossless.
use vstd::prelude::*;
use vstd::slice::slice_subrange;
use crate::text::{
    append_chars, chars_of, dec, digit, is_digit, is_letter, is_upper, join, strip_leading,
};

verus! {

/// The most segments that are read off one symbol.
pub const MAX_SEGMENTS: usize = 50;

/// The longest identifier that is read as one segment.
pub const MAX_SEGMENT_LEN: usize = 64;

/// `_*M0[A-Z]`: what a mangled symbol starts with.
pub open spec fn is_mangled(name: Seq<char>) -> bool {
    let s = strip_leading(name, '_');
    s.len() >= 3 && s[0] == 'M' && s[1] == '0' && is_upper(s[2])
}

/// The number of letters other than `G` right before position `i`.
pub open spec fn letters_before(s: Seq<char>, i: int) -> nat
    decreases i,
{
    if 0 < i <= s.len() && is_letter(s[i - 1]) && s[i - 1] != 'G' {
        1 + letters_before(s, i - 1)
    } else {
        0
    }
}

/// `s` without a trailing `G<letters>E`, the mark of a generic instantiation.
pub open spec fn without_generics(s: Seq<char>) -> Seq<char> {
    let end = s.len() as int;
    if end < 3 || s[end - 1] != 'E' {
        s
    } else {
        let i = end - 1 - letters_before(s, end - 1);
        if i > 0 && s[i - 1] == 'G' {
            s.take(i - 1)
        } else {
            s
        }
    }
}

/// A letter or `_`, then letters, digits and `_`.
pub open spec fn is_ident(s: Seq<char>) -> bool {
    &&& s.len() > 0
    &&& !is_digit(s[0])
    &&& forall|j: int| 0 <= j < s.len() ==> #[trigger] s[j] == '_' || is_letter(s[j]) || is_digit(s[j])
}

/// Whether `s[..i]` ends in an identifier of length `n` right behind `n` in decimal.
pub open spec fn segment_fits(s: Seq<char>, i: int, n: int) -> bool {
    let digits = dec(n as nat);
    &&& 0 < n < i <= s.len()
    &&& digits.len() <= i - n
    &&& is_ident(s.subrange(i - n, i))
    &&& s.subrange(i - n - digits.len(), i - n) == digits
}

/// The largest length up to `n` of a segment that ends at `i`.
pub open spec fn longest_segment(s: Seq<char>, i: int, n: int) -> Option<int>
    decreases n,
{
    if n <= 0 {
        None
    } else if segment_fits(s, i, n) {
        Some(n)
    } else {
        longest_segment(s, i, n - 1)
    }
}

/// The identifiers of at most `limit` segments that end `s[..i]`, in reading order.
pub open spec fn segments(s: Seq<char>, i: int, limit: int) -> Seq<Seq<char>>
    decreases limit,
{
    if limit <= 0 {
        Seq::empty()
    } else {
        match longest_segment(s, i, MAX_SEGMENT_LEN as int) {
            Some(n) => segments(s, i - n - dec(n as nat).len(), limit - 1).push(s.subrange(i - n, i)),
            None => Seq::empty(),
        }
    }
}

/// The segments of a mangled name.
pub open spec fn name_parts(name: Seq<char>) -> Seq<Seq<char>> {
    let s = without_generics(strip_leading(name, '_'));
    segments(s, s.len() as int, MAX_SEGMENTS as int)
}

/// The readable form of `name`: its segments joined by `::`, or `name` itself
/// where it does not look mangled.
pub open spec fn demangled(name: Seq<char>) -> Seq<char> {
    if is_mangled(name) && name_parts(name).len() > 0 {
        join(name_parts(name), seq![':', ':'])
    } else {
        name
    }
}

fn letter(c: char) -> (r: bool)
    ensures
        r == is_letter(c),
{
    ('a' <= c && c <= 'z') || ('A' <= c && c <= 'Z')
}

fn ident(s: &[char]) -> (r: bool)
    ensures
        r == is_ident(s@),
{
    if s.len() == 0 || ('0' <= s[0] && s[0] <= '9') {
        return false;
    }
    for j in 0..s.len()
        invariant
            forall|k: int| 0 <= k < j ==> #[trigger] s@[k] == '_' || is_letter(s@[k]) || is_digit(s@[k]),
    {
        let c = s[j];
        if !(c == '_' || letter(c) || ('0' <= c && c <= '9')) {
            return false;
        }
    }
    true
}

/// Start of the leading `_` run's end.
fn skip_underscores(s: &[char]) -> (k: usize)
    ensures
        k <= s@.len(),
        s@.skip(k as int) == strip_leading(s@, '_'),
{
    let mut k: usize = 0;
    assert(s@.skip(0) =~= s@);
    while k < s.len() && s[k] == '_'
        invariant
            k <= s@.len(),
            strip_leading(s@.skip(k as int), '_') == strip_leading(s@, '_'),
        decreases s@.len() - k,
    {
        assert(s@.skip(k as int).drop_first() =~= s@.skip(k + 1));
        k += 1;
    }
    k
}

/// Length of `s` without its generic suffix.
fn generics_start(s: &[char]) -> (n: usize)
    ensures
        n <= s@.len(),
        s@.take(n as int) == without_generics(s@),
{
    let end: usize = s.len();
    assert(s@.take(end as int) =~= s@);
    if end < 3 || s[end - 1] != 'E' {
        return end;
    }
    let mut i: usize = end - 1;
    while i > 0 && letter(s[i - 1]) && s[i - 1] != 'G'
        invariant
            0 <= i <= end - 1,
            end == s@.len(),
            i - letters_before(s@, i as int) == end - 1 - letters_before(s@, end - 1),
        decreases i,
    {
        i -= 1;
    }
    if i > 0 && s[i - 1] == 'G' {
        i - 1
    } else {
        end
    }
}

/// `dec(n)` for a length that fits in a segment.
proof fn lemma_short_dec(n: int)
    requires
        0 < n <= MAX_SEGMENT_LEN,
    ensures
        n < 10 ==> dec(n as nat) == seq![digit(n as nat)],
        n >= 10 ==> dec(n as nat) == seq![digit((n / 10) as nat), digit((n % 10) as nat)],
{
    reveal_with_fuel(dec, 3);
    if n >= 10 {
        assert(dec(n as nat) =~= seq![digit((n / 10) as nat), digit((n % 10) as nat)]);
    }
}

/// Number of decimal digits right before position `i - n`, if they spell `n` and
/// an identifier of length `n` follows them.
fn segment_digits(s: &[char], i: usize, n: usize) -> (r: Option<usize>)
    requires
        0 < n < i <= s@.len(),
        n <= MAX_SEGMENT_LEN,
    ensures
        r is Some <==> segment_fits(s@, i as int, n as int),
        r matches Some(d) ==> d == dec(n as nat).len(),
{
    proof {
        lemma_short_dec(n as int);
    }
    let at: usize = i - n;
    if !ident(slice_subrange(s, at, i)) {
        return None;
    }
    if n < 10 {
        if s[at - 1] == (48 + n as u8) as char {
            assert(s@.subrange(at - 1, at as int) =~= dec(n as nat));
            return Some(1);
        }
        assert(s@.subrange(at - 1, at as int)[0] != dec(n as nat)[0]);
        return None;
    }
    if at >= 2 && s[at - 2] == (48 + (n / 10) as u8) as char && s[at - 1] == (48 + (n % 10) as u8) as char {
        assert(s@.subrange(at - 2, at as int) =~= dec(n as nat));
        return Some(2);
    }
    if at >= 2 {
        assert(s@.subrange(at - 2, at as int)[0] != dec(n as nat)[0]
            || s@.subrange(at - 2, at as int)[1] != dec(n as nat)[1]);
    }
    None
}

/// The longest segment that ends at `i`: its length and that of its decimal.
fn find_segment_end(s: &[char], i: usize) -> (r: Option<(usize, usize)>)
    requires
        0 < i <= s@.len(),
    ensures
        match r {
            Some((n, d)) => {
                &&& longest_segment(s@, i as int, MAX_SEGMENT_LEN as int) == Some(n as int)
                &&& segment_fits(s@, i as int, n as int)
                &&& d == dec(n as nat).len()
            },
            None => longest_segment(s@, i as int, MAX_SEGMENT_LEN as int) is None,
        },
{
    let mut n: usize = MAX_SEGMENT_LEN;
    while n > 0
        invariant
            0 < i <= s@.len(),
            n <= MAX_SEGMENT_LEN,
            longest_segment(s@, i as int, MAX_SEGMENT_LEN as int) == longest_segment(s@, i as int, n as int),
        decreases n,
    {
        if n < i {
            if let Some(d) = segment_digits(s, i, n) {
                return Some((n, d));
            }
        }
        n -= 1;
    }
    None
}

/// The pieces `s[a..b]` of `spans`, listed from the last to the first.
spec fn spans_text(s: Seq<char>, spans: Seq<(usize, usize)>) -> Seq<Seq<char>> {
    spans.map_values(|p: (usize, usize)| s.subrange(p.0 as int, p.1 as int)).reverse()
}

proof fn lemma_segments_end(s: Seq<char>, limit: int)
    ensures
        segments(s, 0, limit) == Seq::<Seq<char>>::empty(),
{
    if limit > 0 {
        lemma_no_segment_at_start(s, MAX_SEGMENT_LEN as int);
    }
}

proof fn lemma_no_segment_at_start(s: Seq<char>, n: int)
    ensures
        longest_segment(s, 0, n) is None,
    decreases n,
{
    if n > 0 {
        lemma_no_segment_at_start(s, n - 1);
    }
}

/// Decode a MoonBit mangled symbol. Returns `name` itself if it does not look
/// mangled.
pub fn demangle(name: &str) -> (r: String)
    ensures
        r@ == demangled(name@),
{
    let all = chars_of(name);
    let start: usize = skip_underscores(all.as_slice());
    let inner = slice_subrange(all.as_slice(), start, all.len());
    assert(inner@ == strip_leading(name@, '_'));
    if inner.len() < 3 || inner[0] != 'M' || inner[1] != '0' || !('A' <= inner[2] && inner[2] <= 'Z') {
        return name.to_owned();
    }
    let end: usize = generics_start(inner);
    let body = slice_subrange(inner, 0, end);
    let mut spans: Vec<(usize, usize)> = Vec::new();
    let mut i: usize = body.len();
    let mut left: usize = MAX_SEGMENTS;
    proof {
        lemma_segments_end(body@, left as int);
        assert(spans_text(body@, spans@) =~= Seq::<Seq<char>>::empty());
        assert(segments(body@, i as int, left as int) + spans_text(body@, spans@)
            =~= segments(body@, i as int, left as int));
    }
    while left > 0 && i > 0
        invariant
            left <= MAX_SEGMENTS,
            i <= body@.len(),
            forall|k: int| 0 <= k < spans@.len() ==> #[trigger] spans@[k].0 < spans@[k].1 <= body@.len(),
            segments(body@, body@.len() as int, MAX_SEGMENTS as int) == segments(body@, i as int, left as int)
                + spans_text(body@, spans@),
            left == 0 || i == 0 ==> segments(body@, i as int, left as int) + spans_text(body@, spans@)
                == spans_text(body@, spans@),
        ensures
            segments(body@, body@.len() as int, MAX_SEGMENTS as int) == spans_text(body@, spans@),
        decreases left,
    {
        match find_segment_end(body, i) {
            Some((n, d)) => {
                let ghost before = spans@;
                spans.push((i - n, i));
                proof {
                    assert(spans_text(body@, spans@) =~= seq![body@.subrange(i - n, i as int)] + spans_text(body@, before));
                    assert(segments(body@, i as int, left as int) + spans_text(body@, before)
                        =~= segments(body@, i - n - d, left - 1) + spans_text(body@, spans@));
                }
                i = i - n - d;
                left -= 1;
            },
            None => {
                assert(segments(body@, i as int, left as int) =~= Seq::<Seq<char>>::empty());
                assert(segments(body@, i as int, left as int) + spans_text(body@, spans@) =~= spans_text(body@, spans@));
                break;
            },
        }
        proof {
            lemma_segments_end(body@, left as int);
            assert(Seq::<Seq<char>>::empty() + spans_text(body@, spans@) =~= spans_text(body@, spans@));
        }
    }
    if spans.len() == 0 {
        return name.to_owned();
    }
    let ghost parts = spans_text(body@, spans@);
    let mut out = String::new();
    let mut k: usize = spans.len();
    while k > 0
        invariant
            k <= spans@.len(),
            parts == spans_text(body@, spans@),
            forall|k: int| 0 <= k < spans@.len() ==> #[trigger] spans@[k].0 < spans@[k].1 <= body@.len(),
            out@ == join(parts.take(spans@.len() - k), seq![':', ':']),
        decreases k,
    {
        let ghost done = spans@.len() - k;
        k -= 1;
        if k + 1 < spans.len() {
            out.push(':');
            out.push(':');
        }
        append_chars(&mut out, slice_subrange(body, spans[k].0, spans[k].1));
        proof {
            assert(parts.take(done + 1).drop_last() =~= parts.take(done));
            assert(out@ =~= join(parts.take(done + 1), seq![':', ':']));
        }
    }
    assert(parts.take(parts.len() as int) =~= parts);
    out
}

/// The readable form of a guest symbol, as shown in wasmtime profiles.
pub fn symbol(name: &str) -> (r: String)
    ensures
        r@ == demangled(name@),
{
    demangle(name)
}

/// How raw symbol names are made readable.
pub trait Demangler: Sized {
    /// The readable form of a raw name.
    spec fn pretty(&self, raw: Seq<char>) -> Seq<char>;

    fn demangle(&self, raw: &str) -> (r: String)
        ensures
            r@ == self.pretty(raw@),
    ;
}

/// Decodes MoonBit's mangling.
#[derive(Clone, Copy, Debug)]
pub struct MoonBit;

impl Demangler for MoonBit {
    open spec fn pretty(&self, raw: Seq<char>) -> Seq<char> {
        demangled(raw)
    }

    fn demangle(&self, raw: &str) -> (r: String) {
        demangle(raw)
    }
}

/// Keeps names as they are, for profiles of other code.
#[derive(Clone, Copy, Debug)]
pub struct Verbatim;

impl Demangler for Verbatim {
    open spec fn pretty(&self, raw: Seq<char>) -> Seq<char> {
        raw
    }

    fn demangle(&self, raw: &str) -> (r: String) {
        raw.to_owned()
    }
}

/// A name that does not look mangled passes through unchanged.
pub proof fn law_plain_name_unchanged(name: Seq<char>)
    requires
        !is_mangled(name),
    ensures
        demangled(name) == name,
{
}

/// An underscore put before a decodable symbol, as Mach-O does, changes nothing
/// of its readable form.
pub proof fn law_leading_underscore_ignored(name: Seq<char>)
    requires
        is_mangled(name),
        name_parts(name).len() > 0,
    ensures
        demangled(seq!['_'] + name) == demangled(name),
{
    assert((seq!['_'] + name).drop_first() =~= name);
}

} // verus!

//! Reading folded text back.
use vstd::prelude::*;
use crate::folded::{columns, entry_of, frames_of, line_entry, reads_exactly, trimmed_pieces, FoldedStackView, LineError};
use crate::folded_export::{
    added, exported, folded_lines, folded_sums, folded_text, frame_names, stack_text, text_less, value_at,
};
use crate::proto::{ProfileView, SampleView};
use crate::float::parsed_bits;
use crate::text::{
    dec, first_index, is_space, join, last_space, law_decimal_round_trip, lines, split_on, trim, trim_end,
    trim_start, without_cr,
};

verus! {

/// A frame name that folded text keeps as it is: it is not empty, has no white space around
/// it, and holds neither a semicolon nor a line feed.
pub open spec fn is_plain_frame(f: Seq<char>) -> bool {
    &&& f.len() > 0
    &&& !is_space(f[0])
    &&& !is_space(f.last())
    &&& forall|i: int| 0 <= i < f.len() ==> #[trigger] f[i] != ';' && f[i] != '\n'
}

/// A stack of such names. It does not start like a comment.
pub open spec fn is_plain_stack(frames: Seq<Seq<char>>) -> bool {
    &&& frames.len() > 0
    &&& frames[0][0] != '#'
    &&& forall|i: int| 0 <= i < frames.len() ==> is_plain_frame(#[trigger] frames[i])
}

/// The line of a stack and its value.
pub open spec fn folded_line(stack: Seq<char>, value: nat) -> Seq<char> {
    stack + seq![' '] + dec(value)
}

proof fn lemma_trim_same(s: Seq<char>)
    requires
        s.len() > 0,
        !is_space(s[0]),
        !is_space(s.last()),
    ensures
        trim(s) == s,
{
}

proof fn lemma_dec(n: nat)
    ensures
        dec(n).len() > 0,
        forall|i: int| 0 <= i < dec(n).len() ==> !is_space(#[trigger] dec(n)[i]) && dec(n)[i] != '\n' && dec(n)[i] != '\r',
    decreases n,
{
    if n >= 10 {
        lemma_dec(n / 10);
        let front = dec(n / 10);
        assert forall|i: int| 0 <= i < dec(n).len() implies !is_space(#[trigger] dec(n)[i]) && dec(n)[i] != '\n'
            && dec(n)[i] != '\r' by {
            if i < front.len() {
                assert(dec(n)[i] == front[i]);
            }
        }
    }
}

proof fn lemma_last_space(a: Seq<char>, d: Seq<char>)
    requires
        forall|i: int| 0 <= i < d.len() ==> !is_space(#[trigger] d[i]),
    ensures
        last_space(a + seq![' '] + d) == Some(a.len() as int),
    decreases d.len(),
{
    let s = a + seq![' '] + d;
    if d.len() == 0 {
        assert(s.last() == ' ');
    } else {
        assert(s.last() == d[d.len() - 1]);
        assert(s.drop_last() =~= a + seq![' '] + d.drop_last());
        assert forall|i: int| 0 <= i < d.drop_last().len() implies !is_space(#[trigger] d.drop_last()[i]) by {
            assert(!is_space(d[i]));
        }
        lemma_last_space(a, d.drop_last());
    }
}

pub(crate) proof fn lemma_first_index(a: Seq<char>, c: char, rest: Seq<char>)
    requires
        forall|i: int| 0 <= i < a.len() ==> #[trigger] a[i] != c,
    ensures
        first_index(a, c) is None,
        first_index(a + seq![c] + rest, c) == Some(a.len() as int),
    decreases a.len(),
{
    let s = a + seq![c] + rest;
    if a.len() > 0 {
        let b = a.drop_first();
        assert(a[0] != c);
        assert forall|i: int| 0 <= i < b.len() implies #[trigger] b[i] != c by {
            assert(a[i + 1] != c);
        }
        lemma_first_index(b, c, rest);
        assert(s.drop_first() =~= b + seq![c] + rest);
    }
}

/// Joined texts from the front.
pub(crate) proof fn lemma_join_front(parts: Seq<Seq<char>>)
    requires
        parts.len() > 1,
    ensures
        join(parts, seq![';']) == parts[0] + seq![';'] + join(parts.drop_first(), seq![';']),
    decreases parts.len(),
{
    let sep = seq![';'];
    let front = parts.drop_last();
    if parts.len() == 2 {
        assert(front.drop_last() =~= Seq::empty());
        assert(parts.drop_first().drop_last() =~= Seq::empty());
        assert(join(front, sep) =~= parts[0]);
        assert(join(parts.drop_first(), sep) =~= parts[1]);
    } else {
        lemma_join_front(front);
        assert(front.drop_first() =~= parts.drop_first().drop_last());
        assert(join(parts, sep) =~= parts[0] + sep + join(parts.drop_first(), sep));
    }
}

proof fn lemma_split_join(frames: Seq<Seq<char>>)
    requires
        frames.len() > 0,
        forall|i: int| 0 <= i < frames.len() ==> is_plain_frame(#[trigger] frames[i]),
    ensures
        split_on(join(frames, seq![';']), ';') == frames,
    decreases frames.len(),
{
    let s = join(frames, seq![';']);
    assert(is_plain_frame(frames[0]));
    if frames.len() == 1 {
        assert(frames.drop_last() =~= Seq::empty());
        assert(s =~= frames[0]);
        lemma_first_index(s, ';', Seq::empty());
        assert(seq![s] =~= frames);
    } else {
        let rest = frames.drop_first();
        assert forall|i: int| 0 <= i < rest.len() implies is_plain_frame(#[trigger] rest[i]) by {
            assert(is_plain_frame(frames[i + 1]));
        }
        lemma_split_join(rest);
        lemma_join_front(frames);
        let tail = join(rest, seq![';']);
        lemma_first_index(frames[0], ';', tail);
        let i = frames[0].len() as int;
        assert(s.take(i) =~= frames[0]);
        assert(s.skip(i + 1) =~= tail);
        assert(seq![frames[0]] + rest =~= frames);
    }
}

proof fn lemma_pieces(frames: Seq<Seq<char>>)
    requires
        forall|i: int| 0 <= i < frames.len() ==> is_plain_frame(#[trigger] frames[i]),
    ensures
        trimmed_pieces(frames) == Some(frames),
    decreases frames.len(),
{
    if frames.len() > 0 {
        let front = frames.drop_last();
        assert forall|i: int| 0 <= i < front.len() implies is_plain_frame(#[trigger] front[i]) by {
            assert(is_plain_frame(frames[i]));
        }
        lemma_pieces(front);
        assert(is_plain_frame(frames[frames.len() - 1]));
        lemma_trim_same(frames.last());
        assert(front.push(frames.last()) =~= frames);
    } else {
        assert(frames =~= Seq::empty());
    }
}

proof fn lemma_join_ends(frames: Seq<Seq<char>>)
    requires
        is_plain_stack(frames),
    ensures
        ({
            let s = join(frames, seq![';']);
            &&& s.len() > 0
            &&& s[0] == frames[0][0]
            &&& s.last() == frames.last().last()
            &&& forall|i: int| 0 <= i < s.len() ==> #[trigger] s[i] != '\n'
        }),
    decreases frames.len(),
{
    let s = join(frames, seq![';']);
    assert(is_plain_frame(frames[0]));
    assert(is_plain_frame(frames[frames.len() - 1]));
    if frames.len() == 1 {
        assert(frames.drop_last() =~= Seq::empty());
        assert(s =~= frames[0]);
    } else {
        let front = frames.drop_last();
        assert forall|i: int| 0 <= i < front.len() implies is_plain_frame(#[trigger] front[i]) by {
            assert(is_plain_frame(frames[i]));
        }
        lemma_join_ends(front);
        let a = join(front, seq![';']);
        assert(s =~= a + seq![';'] + frames.last());
        assert forall|i: int| 0 <= i < s.len() implies #[trigger] s[i] != '\n' by {
            if i < a.len() {
                assert(s[i] == a[i]);
            } else if i > a.len() {
                assert(s[i] == frames.last()[i - a.len() - 1]);
            }
        }
    }
}

/// A line of folded text is read back as its stack and its value, frame by frame.
pub proof fn law_folded_line_read_back(frames: Seq<Seq<char>>, value: nat)
    requires
        is_plain_stack(frames),
    ensures
        ({
            let stack = join(frames, seq![';']);
            &&& columns(folded_line(stack, value)) == Ok::<Option<(Seq<char>, Seq<char>)>, LineError>(
                Some((stack, dec(value))),
            )
            &&& frames_of(stack) == Some(frames)
            &&& line_entry(folded_line(stack, value)) == entry_of(stack, parsed_bits(dec(value)))
        }),
{
    let stack = join(frames, seq![';']);
    let d = dec(value);
    let line = folded_line(stack, value);
    lemma_join_ends(frames);
    lemma_dec(value);
    assert(is_plain_frame(frames[0]));
    assert(is_plain_frame(frames[frames.len() - 1]));
    assert(line[0] == stack[0]);
    assert(line.last() == d[d.len() - 1]);
    lemma_trim_same(line);
    lemma_last_space(stack, d);
    let i = stack.len() as int;
    assert(line.take(i) =~= stack);
    lemma_trim_same(stack);
    let tail = line.skip(i);
    assert(tail[0] == ' ');
    assert(tail.drop_first() =~= d);
    assert(!is_space(d[0]));
    assert(trim_start(tail) == trim_start(tail.drop_first()));
    assert(trim_start(d) == d);
    assert(!is_space(d[d.len() - 1]));
    assert(trim_end(d) == d);
    lemma_split_join(frames);
    lemma_pieces(frames);
}

/// A line of folded text whose value is read exactly gives back the stack and the value.
pub proof fn law_folded_entry_read_back(frames: Seq<Seq<char>>, value: nat)
    requires
        is_plain_stack(frames),
        0 < value <= 0x20_0000_0000_0000,
        reads_exactly(folded_line(join(frames, seq![';']), value)),
    ensures
        line_entry(folded_line(join(frames, seq![';']), value)) == Ok::<Option<FoldedStackView>, LineError>(
            Some(FoldedStackView { frames, value: value as i64 }),
        ),
{
    law_folded_line_read_back(frames, value);
    law_decimal_round_trip(value);
}

/// The text of an export is read back line by line.
pub proof fn law_folded_text_lines(m: Seq<(Seq<char>, int)>)
    requires
        forall|i: int, k: int| 0 <= i < m.len() && 0 <= k < m[i].0.len() ==> #[trigger] m[i].0[k] != '\n',
    ensures
        lines(folded_lines(m)) == Seq::new(m.len(), |i: int| folded_line(m[i].0, m[i].1 as nat)),
    decreases m.len(),
{
    if m.len() == 0 {
        assert(lines(folded_lines(m)) =~= Seq::new(m.len(), |i: int| folded_line(m[i].0, m[i].1 as nat)));
    } else {
        let front = m.drop_last();
        assert forall|i: int, k: int| 0 <= i < front.len() && 0 <= k < front[i].0.len() implies #[trigger] front[i].0[k]
            != '\n' by {
            assert(m[i].0[k] != '\n');
        }
        law_folded_text_lines(front);
        let last = folded_line(m.last().0, m.last().1 as nat);
        lemma_dec(m.last().1 as nat);
        let a = m.last().0;
        let d = dec(m.last().1 as nat);
        assert forall|i: int| 0 <= i < last.len() implies #[trigger] last[i] != '\n' by {
            if i < a.len() {
                assert(last[i] == m[m.len() - 1].0[i]);
            } else if i > a.len() {
                assert(last[i] == d[i - a.len() - 1]);
            }
        }
        assert(last.last() == d[d.len() - 1]);
        assert(folded_lines(m) =~= folded_lines(front) + last + seq!['\n']);
        lemma_whole(front);
        lemma_lines_append(folded_lines(front), last);
        assert(lines(folded_lines(m)) =~= Seq::new(m.len(), |i: int| folded_line(m[i].0, m[i].1 as nat)));
    }
}

/// Whether a text is made of whole lines.
pub open spec fn is_whole(s: Seq<char>) -> bool {
    s.len() == 0 || s.last() == '\n'
}

proof fn lemma_whole(m: Seq<(Seq<char>, int)>)
    ensures
        is_whole(folded_lines(m)),
{
}

proof fn lemma_lines_append(s: Seq<char>, line: Seq<char>)
    requires
        is_whole(s),
        forall|i: int| 0 <= i < line.len() ==> #[trigger] line[i] != '\n',
        line.len() > 0,
        line.last() != '\r',
    ensures
        lines(s + line + seq!['\n']) == lines(s).push(line),
    decreases s.len(),
{
    let all = s + line + seq!['\n'];
    let nl = '\n';
    if s.len() == 0 {
        lemma_first_index(line, nl, Seq::empty());
        assert(all =~= line + seq![nl] + Seq::<char>::empty());
        assert(all.take(line.len() as int) =~= line);
        assert(all.skip(line.len() as int + 1) =~= Seq::empty());
        assert(first_index(all, nl) == Some(line.len() as int));
        assert(without_cr(line) == line);
        assert(lines(Seq::<char>::empty()) =~= Seq::empty());
        assert(seq![line] + Seq::<Seq<char>>::empty() =~= seq![line]);
        assert(lines(all) =~= seq![line]);
        assert(lines(s).push(line) =~= seq![line]);
    } else {
        lemma_has_index(s, nl);
        let i = first_index(s, nl).unwrap();
        lemma_index_longer(s, line + seq![nl], nl);
        assert(all =~= s + (line + seq![nl]));
        assert(all.take(i) =~= s.take(i));
        let rest = s.skip(i + 1);
        assert(all.skip(i + 1) =~= rest + line + seq![nl]);
        if rest.len() > 0 {
            assert(rest.last() == s.last());
        }
        lemma_lines_append(rest, line);
        assert(seq![without_cr(s.take(i))] + lines(rest).push(line) =~= (seq![without_cr(s.take(i))] + lines(rest)).push(
            line,
        ));
    }
}

pub(crate) proof fn lemma_has_index(s: Seq<char>, c: char)
    requires
        s.len() > 0,
        s.last() == c,
    ensures
        first_index(s, c) is Some,
        0 <= first_index(s, c).unwrap() < s.len(),
    decreases s.len(),
{
    if s[0] != c {
        assert(s.drop_first().last() == c);
        lemma_has_index(s.drop_first(), c);
    }
}

pub(crate) proof fn lemma_index_longer(s: Seq<char>, more: Seq<char>, c: char)
    requires
        first_index(s, c) is Some,
    ensures
        first_index(s + more, c) == first_index(s, c),
    decreases s.len(),
{
    if s.len() > 0 && s[0] != c {
        assert((s + more).drop_first() =~= s.drop_first() + more);
        lemma_index_longer(s.drop_first(), more, c);
    }
}

/// Whether a text is on one line.
pub open spec fn on_one_line(s: Seq<char>) -> bool {
    forall|k: int| 0 <= k < s.len() ==> #[trigger] s[k] != '\n'
}

proof fn lemma_join_on_one_line(parts: Seq<Seq<char>>)
    requires
        forall|i: int| 0 <= i < parts.len() ==> on_one_line(#[trigger] parts[i]),
    ensures
        on_one_line(join(parts, seq![';'])),
    decreases parts.len(),
{
    let s = join(parts, seq![';']);
    if parts.len() == 1 {
        assert(on_one_line(parts[0]));
    } else if parts.len() > 1 {
        let front = parts.drop_last();
        assert forall|i: int| 0 <= i < front.len() implies on_one_line(#[trigger] front[i]) by {
            assert(on_one_line(parts[i]));
        }
        lemma_join_on_one_line(front);
        assert(on_one_line(parts[parts.len() - 1]));
        let a = join(front, seq![';']);
        assert forall|k: int| 0 <= k < s.len() implies #[trigger] s[k] != '\n' by {
            if k < a.len() {
                assert(s[k] == a[k]);
            } else if k > a.len() {
                assert(s[k] == parts.last()[k - a.len() - 1]);
            }
        }
    }
}

proof fn lemma_added_on_one_line(m: Seq<(Seq<char>, int)>, k: Seq<char>, v: int)
    requires
        on_one_line(k),
        forall|i: int| 0 <= i < m.len() ==> on_one_line((#[trigger] m[i]).0),
    ensures
        forall|i: int| 0 <= i < added(m, k, v).len() ==> on_one_line((#[trigger] added(m, k, v)[i]).0),
    decreases m.len(),
{
    let r = added(m, k, v);
    if m.len() > 0 {
        let rest = m.drop_first();
        assert forall|i: int| 0 <= i < rest.len() implies on_one_line((#[trigger] rest[i]).0) by {
            assert(on_one_line(m[i + 1].0));
        }
        lemma_added_on_one_line(rest, k, v);
        assert(on_one_line(m[0].0));
        assert forall|i: int| 0 <= i < r.len() implies on_one_line((#[trigger] r[i]).0) by {
            if m[0].0 == k {
                if i > 0 {
                    assert(r[i] == rest[i - 1]);
                }
            } else if text_less(k, m[0].0) {
                if i > 0 {
                    assert(r[i] == m[i - 1]);
                }
            } else if i > 0 {
                assert(r[i] == added(rest, k, v)[i - 1]);
            }
        }
    }
}

proof fn lemma_sums_on_one_line(p: ProfileView, samples: Seq<SampleView>, axis: int)
    ensures
        forall|i: int|
            0 <= i < folded_sums(p, samples, axis).len() ==> on_one_line(
                (#[trigger] folded_sums(p, samples, axis)[i]).0,
            ),
    decreases samples.len(),
{
    if samples.len() > 0 {
        lemma_sums_on_one_line(p, samples.drop_last(), axis);
        let names = frame_names(p, samples.last());
        assert forall|i: int| 0 <= i < names.len() implies on_one_line(#[trigger] names[i]) by {}
        lemma_join_on_one_line(names);
        lemma_added_on_one_line(
            folded_sums(p, samples.drop_last(), axis),
            stack_text(p, samples.last()),
            value_at(samples.last(), axis) as int,
        );
    }
}

/// The text of a profile is read back as one line per stack, whatever the frames are called.
pub proof fn law_folded_text_read_back(p: ProfileView, axis: int)
    ensures
        ({
            let m = folded_sums(p, exported(p.sample, axis), axis);
            lines(folded_text(p, axis)) == Seq::new(m.len(), |i: int| folded_line(m[i].0, m[i].1 as nat))
        }),
{
    let m = folded_sums(p, exported(p.sample, axis), axis);
    lemma_sums_on_one_line(p, exported(p.sample, axis), axis);
    assert forall|i: int, k: int| 0 <= i < m.len() && 0 <= k < m[i].0.len() implies #[trigger] m[i].0[k] != '\n' by {
        assert(on_one_line(m[i].0));
    }
    law_folded_text_lines(m);
}

} // verus!

//! How the text that `perf script` prints is read.
use vstd::prelude::*;
use crate::perf::{
    counts, flushed, frame_on, frame_total, header_period, last_open, lines_read, period_total,
    unit_periods, unresolved_in, unresolved_total, without_offset, FrameView, SampleView, Stats,
};
use crate::text::{
    dec, first_space, is_space, last_index, last_space, law_decimal_round_trip, parsed_u64, strip_trailing,
    trim, trim_end, trim_start,
};

verus! {

/// Whether a text holds no white space.
pub open spec fn is_solid(s: Seq<char>) -> bool {
    forall|i: int| 0 <= i < s.len() ==> !is_space(#[trigger] s[i])
}

/// Whether a text is white space.
pub open spec fn is_blank(s: Seq<char>) -> bool {
    forall|i: int| 0 <= i < s.len() ==> is_space(#[trigger] s[i])
}

proof fn lemma_trim_start(a: Seq<char>, s: Seq<char>)
    requires
        is_blank(a),
        s.len() > 0,
        !is_space(s[0]),
    ensures
        trim_start(a + s) == s,
    decreases a.len(),
{
    let all = a + s;
    if a.len() == 0 {
        assert(all =~= s);
    } else {
        let rest = a.drop_first();
        assert(all[0] == a[0]);
        assert(all.drop_first() =~= rest + s);
        assert forall|i: int| 0 <= i < rest.len() implies is_space(#[trigger] rest[i]) by {
            assert(is_space(a[i + 1]));
        }
        lemma_trim_start(rest, s);
    }
}

proof fn lemma_first_space(a: Seq<char>, r: Seq<char>)
    requires
        is_solid(a),
        r.len() > 0,
        is_space(r[0]),
    ensures
        first_space(a + r) == Some(a.len() as int),
    decreases a.len(),
{
    let all = a + r;
    if a.len() == 0 {
        assert(all =~= r);
    } else {
        let rest = a.drop_first();
        assert(all[0] == a[0]);
        assert(all.drop_first() =~= rest + r);
        assert forall|i: int| 0 <= i < rest.len() implies !is_space(#[trigger] rest[i]) by {
            assert(!is_space(a[i + 1]));
        }
        lemma_first_space(rest, r);
    }
}

proof fn lemma_last_space(a: Seq<char>, s: Seq<char>)
    requires
        a.len() > 0,
        is_space(a.last()),
        is_solid(s),
    ensures
        last_space(a + s) == Some(a.len() - 1),
    decreases s.len(),
{
    let all = a + s;
    if s.len() == 0 {
        assert(all =~= a);
    } else {
        let front = s.drop_last();
        assert(all.drop_last() =~= a + front);
        assert(all.last() == s[s.len() - 1]);
        assert forall|i: int| 0 <= i < front.len() implies !is_space(#[trigger] front[i]) by {
            assert(!is_space(s[i]));
        }
        lemma_last_space(a, front);
    }
}

/// Whether no bracket opens behind a space.
pub open spec fn opens_nothing(d: Seq<char>) -> bool {
    forall|i: int| 0 <= i < d.len() - 1 ==> !(#[trigger] d[i] == ' ' && d[i + 1] == '(')
}

proof fn lemma_last_open(s: Seq<char>, d: Seq<char>)
    requires
        opens_nothing(d),
    ensures
        last_open(s + seq![' ', '('] + d) == Some(s.len() as int),
    decreases d.len(),
{
    let all = s + seq![' ', '('] + d;
    let n = all.len();
    if d.len() == 0 {
        assert(all[n - 2] == ' ' && all.last() == '(');
    } else {
        let front = d.drop_last();
        assert(all.drop_last() =~= s + seq![' ', '('] + front);
        assert(opens_nothing(front)) by {
            assert forall|i: int| 0 <= i < front.len() - 1 implies !(#[trigger] front[i] == ' ' && front[i + 1] == '(') by {
                assert(!(d[i] == ' ' && d[i + 1] == '('));
            }
        }
        if d.len() == 1 {
            assert(all[n - 2] == '(');
        } else {
            let k = d.len() - 2;
            assert(all[n - 2] == d[k] && all.last() == d[k + 1]);
        }
        lemma_last_open(s, front);
    }
}

proof fn lemma_no_plus(s: Seq<char>, h: Seq<char>)
    requires
        !h.contains('+'),
    ensures
        last_index(s + h, '+') == last_index(s, '+'),
    decreases h.len(),
{
    let all = s + h;
    if h.len() == 0 {
        assert(all =~= s);
    } else {
        let front = h.drop_last();
        assert(all.drop_last() =~= s + front);
        assert(all.last() == h[h.len() - 1]);
        assert(h.contains(h[h.len() - 1]));
        assert(!front.contains('+')) by {
            if front.contains('+') {
                assert(h[front.index_of('+')] == '+');
            }
        }
        lemma_no_plus(s, front);
    }
}

/// A text as perf writes an offset into a function.
pub open spec fn offset(h: Seq<char>) -> Seq<char> {
    seq!['+', '0', 'x'] + h
}

/// A symbol is shown without the offset behind it, and one without an offset as it is.
pub proof fn law_offset_dropped(symbol: Seq<char>, h: Seq<char>)
    requires
        !h.contains('+'),
    ensures
        without_offset(symbol + offset(h)) == symbol,
        !symbol.contains('+') ==> without_offset(symbol) == symbol,
{
    let all = symbol + offset(h);
    let head = symbol.push('+');
    let tail = seq!['0', 'x'] + h;
    assert(all =~= head + tail);
    assert(!tail.contains('+')) by {
        if tail.contains('+') {
            let i = tail.index_of('+');
            assert(tail[i] == '+');
            assert(h[i - 2] == '+');
        }
    }
    lemma_no_plus(head, tail);
    assert(head.last() == '+');
    assert(all.take(symbol.len() as int) =~= symbol);
    if !symbol.contains('+') {
        let none = Seq::<char>::empty();
        lemma_no_plus(none, symbol);
        assert(none + symbol =~= symbol);
    }
}

proof fn lemma_frame(addr: Seq<char>, shown: Seq<char>, dso: Seq<char>)
    requires
        addr.len() > 0,
        is_solid(addr),
        shown.len() > 0,
        !is_space(shown[0]),
        opens_nothing(dso.push(')')),
        dso.len() > 0 ==> dso.last() != ')',
    ensures
        frame_on(addr + seq![' '] + shown + seq![' ', '('] + dso.push(')')) == Some(
            FrameView { symbol: without_offset(shown), dso },
        ),
{
    let rest = shown + seq![' ', '('] + dso.push(')');
    let line = addr + seq![' '] + shown + seq![' ', '('] + dso.push(')');
    assert(line =~= addr + (seq![' '] + rest));
    lemma_first_space(addr, seq![' '] + rest);
    assert(line.skip(addr.len() as int + 1) =~= rest);
    let none = Seq::<char>::empty();
    lemma_trim_start(none, rest);
    assert(none + rest =~= rest);
    lemma_last_open(shown, dso.push(')'));
    let k = shown.len() as int;
    assert(rest.take(k) =~= shown);
    assert(rest.skip(k + 2) =~= dso.push(')'));
    assert(dso.push(')').drop_last() =~= dso);
    assert(strip_trailing(dso.push(')'), ')') == strip_trailing(dso, ')'));
}

/// A line of a stack gives the symbol without its offset, and the binary without its brackets,
/// however far it is indented.
pub proof fn law_frame_line(indent: Seq<char>, addr: Seq<char>, symbol: Seq<char>, h: Seq<char>, dso: Seq<char>)
    requires
        is_blank(indent),
        addr.len() > 0,
        is_solid(addr),
        symbol.len() > 0,
        !is_space(symbol[0]),
        !h.contains('+'),
        opens_nothing(dso.push(')')),
        dso.len() > 0 ==> dso.last() != ')',
    ensures
        frame_on(trim(indent + (addr + seq![' '] + (symbol + offset(h)) + seq![' ', '('] + dso.push(')')))) == Some(
            FrameView { symbol, dso },
        ),
        !symbol.contains('+') ==> frame_on(trim(indent + (addr + seq![' '] + symbol + seq![' ', '('] + dso.push(')'))))
            == Some(FrameView { symbol, dso }),
{
    let a = addr + seq![' '] + (symbol + offset(h)) + seq![' ', '('] + dso.push(')');
    let b = addr + seq![' '] + symbol + seq![' ', '('] + dso.push(')');
    assert(!is_space(addr[0]));
    assert(a[0] == addr[0] && b[0] == addr[0]);
    assert(a.last() == ')' && b.last() == ')');
    lemma_trim_start(indent, a);
    lemma_trim_start(indent, b);
    law_offset_dropped(symbol, h);
    lemma_frame(addr, symbol + offset(h), dso);
    lemma_frame(addr, symbol, dso);
}

/// The period of a header is the number before the name of the event.
pub proof fn law_header_period(lead: Seq<char>, period: u64, event: Seq<char>)
    requires
        event.len() > 0,
        is_solid(event),
        event.last() != ':',
    ensures
        header_period(lead + seq![' '] + dec(period as nat) + seq![' '] + event + seq![':']) == Some(period),
{
    let number = dec(period as nat);
    let before = lead + seq![' '] + number;
    let head = before + seq![' '];
    let body = head + event;
    let all = lead + seq![' '] + number + seq![' '] + event + seq![':'];
    lemma_number(period);
    assert(all.drop_last() =~= body);
    assert(all.last() == ':');
    assert(body.last() == event[event.len() - 1]);
    assert(strip_trailing(all, ':') == strip_trailing(body, ':'));
    assert(strip_trailing(body, ':') == body);
    assert(!is_space(body.last()));
    assert(trim_end(body) == body);
    assert(head.last() == ' ');
    lemma_last_space(head, event);
    assert(body.take(head.len() - 1) =~= before);
    assert(before.last() == number[number.len() - 1]);
    assert(!is_space(before.last()));
    assert(trim_end(before) == before);
    let l = lead + seq![' '];
    assert(before =~= l + number);
    assert(l.last() == ' ');
    lemma_last_space(l, number);
    assert(before.skip(lead.len() as int + 1) =~= number);
}

proof fn lemma_number(n: u64)
    ensures
        dec(n as nat).len() > 0,
        is_solid(dec(n as nat)),
        parsed_u64(dec(n as nat)) == Some(n),
{
    law_decimal_round_trip(n as nat);
    lemma_digits(n as nat);
    let d = dec(n as nat);
    assert('0' <= d[0] <= '9');
}

proof fn lemma_digits(n: nat)
    ensures
        dec(n).len() > 0,
        forall|i: int| 0 <= i < dec(n).len() ==> '0' <= #[trigger] dec(n)[i] <= '9',
    decreases n,
{
    if n >= 10 {
        lemma_digits(n / 10);
    }
}


proof fn lemma_stack_read(before: Seq<Seq<char>>, stack: Seq<Seq<char>>, s: SampleView)
    requires
        lines_read(before).current == Some(s),
        forall|i: int|
            0 <= i < stack.len() ==> (#[trigger] stack[i]).len() > 0 && is_space(stack[i][0]) && frame_on(trim(stack[i])) is Some,
    ensures
        lines_read(before + stack).done == lines_read(before).done,
        lines_read(before + stack).current == Some(
            SampleView {
                stack: s.stack + Seq::new(stack.len(), |i: int| frame_on(trim(stack[i])).unwrap()),
                period: s.period,
            },
        ),
    decreases stack.len(),
{
    let all = before + stack;
    if stack.len() == 0 {
        assert(all =~= before);
        assert(s.stack + Seq::new(0, |i: int| frame_on(trim(stack[i])).unwrap()) =~= s.stack);
    } else {
        let front = stack.drop_last();
        assert forall|i: int| 0 <= i < front.len() implies (#[trigger] front[i]).len() > 0 && is_space(front[i][0])
            && frame_on(trim(front[i])) is Some by {
            assert(stack[i].len() > 0);
        }
        lemma_stack_read(before, front, s);
        assert(all.drop_last() =~= before + front);
        let last = stack[stack.len() - 1];
        assert(all.last() == last);
        let f = Seq::new(front.len(), |i: int| frame_on(trim(front[i])).unwrap());
        let g = Seq::new(stack.len(), |i: int| frame_on(trim(stack[i])).unwrap());
        assert((s.stack + f).push(frame_on(trim(last)).unwrap()) =~= s.stack + g);
    }
}

/// A header, the lines of a stack and an empty line are one more sample: its stack is what the
/// lines give, in the order in which they are printed, and its period that of the header.
pub proof fn law_sample_read(before: Seq<Seq<char>>, header: Seq<char>, stack: Seq<Seq<char>>)
    requires
        header.len() > 0,
        !is_space(header[0]),
        forall|i: int|
            0 <= i < stack.len() ==> (#[trigger] stack[i]).len() > 0 && is_space(stack[i][0]) && frame_on(trim(stack[i])) is Some,
    ensures
        lines_read(before + seq![header] + stack + seq![Seq::<char>::empty()]).current is None,
        lines_read(before + seq![header] + stack + seq![Seq::<char>::empty()]).done == flushed(lines_read(before)).push(
            SampleView {
                stack: Seq::new(stack.len(), |i: int| frame_on(trim(stack[i])).unwrap()),
                period: match header_period(header) {
                    Some(n) => n,
                    None => 1,
                },
            },
        ),
{
    let none = Seq::<char>::empty();
    let opened = before + seq![header];
    let full = opened + stack;
    let all = full + seq![none];
    let s = SampleView {
        stack: Seq::empty(),
        period: match header_period(header) {
            Some(n) => n,
            None => 1,
        },
    };
    assert(opened.drop_last() =~= before);
    assert(opened.last() == header);
    assert(lines_read(opened).current == Some(s));
    lemma_stack_read(opened, stack, s);
    assert(all.drop_last() =~= full);
    assert(all.last() == none);
    let g = Seq::new(stack.len(), |i: int| frame_on(trim(stack[i])).unwrap());
    assert(s.stack + g =~= g);
}

/// Whether perf found no symbol for a frame: it printed `[unknown]`, or nothing.
pub open spec fn has_no_symbol(f: FrameView) -> bool {
    f.symbol == "[unknown]"@ || f.symbol == Seq::<char>::empty()
}

proof fn lemma_unresolved(stack: Seq<FrameView>)
    ensures
        unresolved_in(stack) == stack.filter(|f: FrameView| has_no_symbol(f)).len(),
    decreases stack.len(),
{
    reveal(Seq::filter);
    if stack.len() > 0 {
        lemma_unresolved(stack.drop_last());
        if stack.last().symbol.len() == 0 {
            assert(stack.last().symbol =~= Seq::empty());
        }
    }
}

/// What the diagnostics count of one sample: its frames, those of them without a symbol, and
/// its period.
pub proof fn law_sample_counted(s: SampleView, x: Stats)
    requires
        counts(x, seq![s]),
    ensures
        x.sample_count == 1,
        x.frame_count == s.stack.len(),
        x.unknown_frame_count == s.stack.filter(|f: FrameView| has_no_symbol(f)).len(),
        x.period_sum == s.period,
        x.unit_period_count == if s.period == 1 {
            1int
        } else {
            0
        },
{
    let one = seq![s];
    let none = one.drop_last();
    assert(none =~= Seq::empty());
    assert(frame_total(none) == 0 && unresolved_total(none) == 0 && period_total(none) == 0 && unit_periods(none) == 0);
    lemma_unresolved(s.stack);
}

} // verus!

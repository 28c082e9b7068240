//! What imported folded text holds: texts that are put together, and text that is exported
//! again.
use vstd::prelude::*;
use crate::folded::{
    columns, entries, folded_profile, folded_tables, imported, line_entry, plain_frame, plain_stack,
    plain_stacks, stack_values, trimmed_pieces, EncodedPprof, FoldedImportOptions, FoldedStackView,
    LineError,
};
use crate::folded_export::{
    added, ascending, exported, exported_values, folded_as, folded_lines, folded_sums, frame_names,
    is_exported, law_folded_lines, lemma_less_not_equal, lemma_less_trans, sanitized, stack_text,
    text_less, value_at, ExportError, ExportStats, PprofExportOptions,
};
use crate::folded_round_trip::{
    is_whole, lemma_first_index, lemma_has_index, lemma_index_longer, lemma_join_front, on_one_line,
};
use crate::frames::{frame_entered, stack_entered, stack_ids, stacks_entered, NamedFrameView};
use crate::pool::{extends, law_place_kept, lemma_extends_trans};
use crate::proto::{ProfileView, SampleView};
use crate::resolve::{sample_frames, FrameView};
use crate::shown::{entry_frame, is_small, lemma_sample_shown, lemma_shows_one_more, shows};
use crate::tables::{lemma_start_tables, start_tables, TablesView};
use crate::tally::total;
use crate::text::{
    first_index, is_space, join, last_space, lines, split_on, trim, trim_end, trim_start, without_cr,
};

verus! {

/// The frame of a name.
pub open spec fn name_frame(name: Seq<char>) -> FrameView {
    entry_frame(name, Seq::empty(), 0, 0, 0)
}

/// The frames of names.
pub open spec fn name_frames(names: Seq<Seq<char>>) -> Seq<FrameView> {
    Seq::new(names.len(), |i: int| name_frame(names[i]))
}

proof fn lemma_frame(t: TablesView, name: Seq<char>)
    requires
        shows(t, name_frames(t.keys)),
        frame_entered(t, plain_frame(name)).functions.len() <= i64::MAX,
    ensures
        ({
            let u = frame_entered(t, plain_frame(name));
            &&& shows(u, name_frames(u.keys))
            &&& extends(t.keys, u.keys)
            &&& u.keys.contains(name)
        }),
{
    let u = frame_entered(t, plain_frame(name));
    assert(t.keys.take(t.keys.len() as int) =~= t.keys);
    if !t.keys.contains(name) {
        lemma_shows_one_more(t, name_frames(t.keys), name, (name, name, Seq::empty()), 0, 0, 0);
        assert(name_frames(u.keys) =~= name_frames(t.keys).push(name_frame(name)));
        assert(u.keys.take(t.keys.len() as int) =~= t.keys);
        assert(u.keys[t.keys.len() as int] == name);
    }
}

proof fn lemma_stack_grows(t: TablesView, stack: Seq<NamedFrameView>)
    ensures
        t.functions.len() <= stack_entered(t, stack).functions.len(),
    decreases stack.len(),
{
    if stack.len() > 0 {
        lemma_stack_grows(t, stack.drop_last());
    }
}

proof fn lemma_stack(t: TablesView, names: Seq<Seq<char>>)
    requires
        shows(t, name_frames(t.keys)),
        stack_entered(t, plain_stack(names)).functions.len() <= i64::MAX,
    ensures
        ({
            let u = stack_entered(t, plain_stack(names));
            &&& shows(u, name_frames(u.keys))
            &&& extends(t.keys, u.keys)
            &&& forall|k: int| 0 <= k < names.len() ==> u.keys.contains(#[trigger] names[k])
        }),
    decreases names.len(),
{
    assert(t.keys.take(t.keys.len() as int) =~= t.keys);
    if names.len() > 0 {
        let front = names.drop_last();
        assert(plain_stack(names).drop_last() =~= plain_stack(front));
        let m = stack_entered(t, plain_stack(front));
        let u = stack_entered(t, plain_stack(names));
        assert(u == frame_entered(m, plain_frame(names.last())));
        lemma_stack(t, front);
        lemma_frame(m, names.last());
        lemma_extends_trans(t.keys, m.keys, u.keys);
        assert forall|k: int| 0 <= k < names.len() implies u.keys.contains(#[trigger] names[k]) by {
            if k < front.len() {
                assert(front[k] == names[k]);
                law_place_kept(m.keys, u.keys, names[k]);
            }
        }
    }
}

/// Whether every frame of the stacks is known by its name.
spec fn all_known(keys: Seq<Seq<char>>, x: Seq<FoldedStackView>) -> bool {
    forall|i: int, k: int|
        0 <= i < x.len() && 0 <= k < x[i].frames.len() ==> keys.contains(#[trigger] x[i].frames[k])
}

proof fn lemma_stacks(t: TablesView, x: Seq<FoldedStackView>)
    requires
        shows(t, name_frames(t.keys)),
        stacks_entered(t, plain_stacks(x)).functions.len() <= i64::MAX,
    ensures
        ({
            let u = stacks_entered(t, plain_stacks(x));
            &&& shows(u, name_frames(u.keys))
            &&& all_known(u.keys, x)
        }),
    decreases x.len(),
{
    if x.len() > 0 {
        let front = x.drop_last();
        assert(plain_stacks(x).drop_last() =~= plain_stacks(front));
        let m = stacks_entered(t, plain_stacks(front));
        let u = stacks_entered(t, plain_stacks(x));
        assert(u == stack_entered(m, plain_stack(x.last().frames)));
        lemma_stack_grows(m, plain_stack(x.last().frames));
        lemma_stacks(t, front);
        lemma_stack(m, x.last().frames);
        assert forall|i: int, k: int| 0 <= i < x.len() && 0 <= k < x[i].frames.len() implies u.keys.contains(
            #[trigger] x[i].frames[k],
        ) by {
            if i < front.len() {
                assert(m.keys.contains(front[i].frames[k]));
                law_place_kept(m.keys, u.keys, x[i].frames[k]);
            }
        }
    }
}

/// A sample of an imported profile shows the frames of its stack, root first.
pub proof fn law_imported_frames(x: Seq<FoldedStackView>, opts: FoldedImportOptions, i: int)
    requires
        0 <= i < x.len(),
        is_small(folded_tables(x, opts)),
    ensures
        sample_frames(folded_profile(x, opts), folded_profile(x, opts).sample[i]) == name_frames(x[i].frames),
{
    let p = folded_profile(x, opts);
    let t = folded_tables(x, opts);
    let s = p.sample[i];
    let names = x[i].frames;
    let start = start_tables("samples"@, "count"@, opts.sample_type@, opts.unit@, opts.mapping_filename@);
    lemma_start_tables("samples"@, "count"@, opts.sample_type@, opts.unit@, opts.mapping_filename@);
    assert(start.keys.len() == 0 && start.functions.len() == 0 && start.locations.len() == 0);
    assert(shows(start, name_frames(start.keys)));
    lemma_stacks(start, x);
    let ids = stack_ids(t.keys, plain_stack(names));
    assert(s.location_id == ids.reverse());
    assert forall|k: int| 0 <= k < names.len() implies 1 <= #[trigger] ids[k] <= t.keys.len() && t.keys[ids[k] - 1]
        == names[k] by {
        assert(t.keys.contains(x[i].frames[k]));
        let j = t.keys.index_of(names[k]);
        assert(0 <= j < t.keys.len() && t.keys[j] == names[k]);
    }
    assert forall|k: int| 0 <= k < s.location_id.len() implies 1 <= #[trigger] s.location_id[k] <= name_frames(
        t.keys,
    ).len() by {
        assert(s.location_id[k] == ids[names.len() - 1 - k]);
    }
    lemma_sample_shown(p, t, name_frames(t.keys), s);
    assert forall|k: int| 0 <= k < names.len() implies sample_frames(p, s)[k] == name_frames(names)[k] by {
        assert(s.location_id[names.len() - 1 - k] == ids[k]);
        assert(t.keys[ids[k] - 1] == names[k]);
    }
    assert(sample_frames(p, s) =~= name_frames(names));
}

proof fn lemma_lines_joined(a: Seq<char>, b: Seq<char>)
    requires
        is_whole(a),
    ensures
        lines(a + b) == lines(a) + lines(b),
    decreases a.len(),
{
    if a.len() == 0 {
        assert(a + b =~= b);
        assert(lines(a) + lines(b) =~= lines(b));
    } else {
        let nl = '\n';
        lemma_has_index(a, nl);
        lemma_index_longer(a, b, nl);
        let i = first_index(a, nl).unwrap();
        let rest = a.skip(i + 1);
        assert((a + b).take(i) =~= a.take(i));
        assert((a + b).skip(i + 1) =~= rest + b);
        if rest.len() > 0 {
            assert(rest.last() == a.last());
        }
        lemma_lines_joined(rest, b);
        let one = seq![without_cr(a.take(i))];
        assert(one + (lines(rest) + lines(b)) =~= (one + lines(rest)) + lines(b));
    }
}

/// What two lists of lines hold together. The lines of the second are counted on.
pub open spec fn entries_joined(
    a: Result<Seq<FoldedStackView>, (int, LineError)>,
    n: int,
    b: Result<Seq<FoldedStackView>, (int, LineError)>,
) -> Result<Seq<FoldedStackView>, (int, LineError)> {
    match a {
        Err(e) => Err(e),
        Ok(x) => match b {
            Err((k, e)) => Err((n + k, e)),
            Ok(y) => Ok(x + y),
        },
    }
}

proof fn lemma_entries_joined(a: Seq<Seq<char>>, b: Seq<Seq<char>>)
    ensures
        entries(a + b) == entries_joined(entries(a), a.len() as int, entries(b)),
    decreases b.len(),
{
    if b.len() == 0 {
        assert(a + b =~= a);
        if let Ok(x) = entries(a) {
            assert(x + Seq::<FoldedStackView>::empty() =~= x);
        }
    } else {
        let front = b.drop_last();
        lemma_entries_joined(a, front);
        assert((a + b).drop_last() =~= a + front);
        if let Ok(x) = entries(a) {
            if let Ok(y) = entries(front) {
                if let Ok(Some(e)) = line_entry(b.last()) {
                    assert((x + y).push(e) =~= x + y.push(e));
                }
            }
        }
    }
}

proof fn lemma_total_joined(a: Seq<i64>, b: Seq<i64>)
    ensures
        total(a + b) == total(a) + total(b),
    decreases b.len(),
{
    if b.len() == 0 {
        assert(a + b =~= a);
    } else {
        assert((a + b).drop_last() =~= a + b.drop_last());
        lemma_total_joined(a, b.drop_last());
    }
}

/// Whether a sample of one profile has the values and the frames of one of another.
pub open spec fn same_sample(p: ProfileView, i: int, q: ProfileView, k: int) -> bool {
    &&& p.sample[i].value == q.sample[k].value
    &&& sample_frames(p, p.sample[i]) == sample_frames(q, q.sample[k])
}

/// Importing two texts one behind the other is importing both: the lines are read alike,
/// the samples are those of the first, then those of the second, and the totals add up. The
/// first text ends with a line.
pub proof fn law_texts_joined(a: Seq<char>, b: Seq<char>, opts: FoldedImportOptions)
    requires
        is_whole(a),
    ensures
        entries(lines(a + b)) == entries_joined(entries(lines(a)), lines(a).len() as int, entries(lines(b))),
        entries(lines(a)) matches Ok(x) ==> entries(lines(b)) matches Ok(y) ==> {
            let p = folded_profile(x + y, opts);
            &&& p.sample.len() == x.len() + y.len()
            &&& total(stack_values(x + y)) == total(stack_values(x)) + total(stack_values(y))
            &&& is_small(folded_tables(x + y, opts)) && is_small(folded_tables(x, opts)) && is_small(
                folded_tables(y, opts),
            ) ==> {
                &&& forall|i: int| 0 <= i < x.len() ==> #[trigger] same_sample(p, i, folded_profile(x, opts), i)
                &&& forall|i: int|
                    0 <= i < y.len() ==> #[trigger] same_sample(p, x.len() + i, folded_profile(y, opts), i)
            }
        },
{
    lemma_lines_joined(a, b);
    lemma_entries_joined(lines(a), lines(b));
    if entries(lines(a)) is Ok && entries(lines(b)) is Ok {
        let x = entries(lines(a))->Ok_0;
        let y = entries(lines(b))->Ok_0;
        let p = folded_profile(x + y, opts);
        assert(stack_values(x + y) =~= stack_values(x) + stack_values(y));
        lemma_total_joined(stack_values(x), stack_values(y));
        if is_small(folded_tables(x + y, opts)) && is_small(folded_tables(x, opts)) && is_small(
            folded_tables(y, opts),
        ) {
            assert forall|i: int| 0 <= i < x.len() implies #[trigger] same_sample(
                p,
                i,
                folded_profile(x, opts),
                i,
            ) by {
                law_imported_frames(x + y, opts, i);
                law_imported_frames(x, opts, i);
                assert((x + y)[i] == x[i]);
            }
            assert forall|i: int| 0 <= i < y.len() implies #[trigger] same_sample(
                p,
                x.len() + i,
                folded_profile(y, opts),
                i,
            ) by {
                law_imported_frames(x + y, opts, x.len() + i);
                law_imported_frames(y, opts, i);
                assert((x + y)[x.len() + i] == y[i]);
            }
        }
    }
}

/// A name that stands between two semicolons of a line.
pub open spec fn is_piece(f: Seq<char>) -> bool {
    f.len() > 0 && on_one_line(f) && forall|k: int| 0 <= k < f.len() ==> #[trigger] f[k] != ';'
}

/// Stacks as lines give them: of weight, and with names.
pub open spec fn are_entries(x: Seq<FoldedStackView>) -> bool {
    forall|i: int|
        0 <= i < x.len() ==> {
            &&& (#[trigger] x[i]).value > 0
            &&& x[i].frames.len() > 0
            &&& forall|k: int| 0 <= k < x[i].frames.len() ==> is_piece(#[trigger] x[i].frames[k])
        }
}

/// Whether the characters of a text are among those of another.
spec fn within(a: Seq<char>, b: Seq<char>) -> bool {
    forall|i: int| 0 <= i < a.len() ==> b.contains(#[trigger] a[i])
}

proof fn lemma_trim_start(s: Seq<char>)
    ensures
        within(trim_start(s), s),
    decreases s.len(),
{
    if s.len() > 0 && is_space(s[0]) {
        let t = s.drop_first();
        lemma_trim_start(t);
        let r = trim_start(s);
        assert forall|i: int| 0 <= i < r.len() implies s.contains(#[trigger] r[i]) by {
            assert(t.contains(r[i]));
            let k = choose|k: int| 0 <= k < t.len() && t[k] == r[i];
            assert(s[k + 1] == r[i]);
        }
    } else {
        assert forall|i: int| 0 <= i < s.len() implies s.contains(#[trigger] s[i]) by {}
    }
}

proof fn lemma_trim_end(s: Seq<char>)
    ensures
        within(trim_end(s), s),
    decreases s.len(),
{
    if s.len() > 0 && is_space(s.last()) {
        let t = s.drop_last();
        lemma_trim_end(t);
        let r = trim_end(s);
        assert forall|i: int| 0 <= i < r.len() implies s.contains(#[trigger] r[i]) by {
            assert(t.contains(r[i]));
            let k = choose|k: int| 0 <= k < t.len() && t[k] == r[i];
            assert(s[k] == r[i]);
        }
    } else {
        assert forall|i: int| 0 <= i < s.len() implies s.contains(#[trigger] s[i]) by {}
    }
}

proof fn lemma_trim(s: Seq<char>)
    ensures
        within(trim(s), s),
{
    lemma_trim_start(s);
    lemma_trim_end(trim_start(s));
    let r = trim(s);
    assert forall|i: int| 0 <= i < r.len() implies s.contains(#[trigger] r[i]) by {
        assert(trim_start(s).contains(r[i]));
        let k = choose|k: int| 0 <= k < trim_start(s).len() && trim_start(s)[k] == r[i];
        assert(s.contains(trim_start(s)[k]));
    }
}

proof fn lemma_trim_keeps(s: Seq<char>, c: char)
    requires
        !s.contains(c),
    ensures
        !trim(s).contains(c),
{
    lemma_trim(s);
    if trim(s).contains(c) {
        let k = choose|k: int| 0 <= k < trim(s).len() && trim(s)[k] == c;
        assert(s.contains(trim(s)[k]));
    }
}

proof fn lemma_index(s: Seq<char>, c: char)
    ensures
        match first_index(s, c) {
            Some(i) => 0 <= i < s.len() && s[i] == c && !s.take(i).contains(c),
            None => !s.contains(c),
        },
    decreases s.len(),
{
    if s.len() > 0 {
        if s[0] != c {
            let t = s.drop_first();
            lemma_index(t, c);
            if let Some(i) = first_index(s, c) {
                if s.take(i).contains(c) {
                    let k = choose|k: int| 0 <= k < i && s.take(i)[k] == c;
                    assert(t.take(i - 1)[k - 1] == c);
                }
            } else if s.contains(c) {
                let k = choose|k: int| 0 <= k < s.len() && s[k] == c;
                assert(t[k - 1] == c);
            }
        } else {
            assert(!s.take(0).contains(c));
        }
    }
}

proof fn lemma_sub(s: Seq<char>, i: int, j: int, c: char)
    requires
        0 <= i <= j <= s.len(),
        !s.contains(c),
    ensures
        !s.subrange(i, j).contains(c),
{
    let r = s.subrange(i, j);
    if r.contains(c) {
        let k = choose|k: int| 0 <= k < r.len() && r[k] == c;
        assert(s[i + k] == c);
    }
}

proof fn lemma_split(s: Seq<char>, c: char)
    requires
        !s.contains('\n'),
    ensures
        split_on(s, c).len() > 0,
        forall|k: int|
            0 <= k < split_on(s, c).len() ==> !(#[trigger] split_on(s, c)[k]).contains(c) && !split_on(
                s,
                c,
            )[k].contains('\n'),
    decreases s.len(),
{
    lemma_index(s, c);
    if let Some(i) = first_index(s, c) {
        let rest = s.skip(i + 1);
        lemma_sub(s, 0, i, '\n');
        assert(s.subrange(0, i) =~= s.take(i));
        lemma_sub(s, i + 1, s.len() as int, '\n');
        assert(s.subrange(i + 1, s.len() as int) =~= rest);
        lemma_split(rest, c);
        let r = split_on(s, c);
        assert forall|k: int| 0 <= k < r.len() implies !(#[trigger] r[k]).contains(c) && !r[k].contains('\n') by {
            if k > 0 {
                assert(r[k] == split_on(rest, c)[k - 1]);
            }
        }
    }
}

proof fn lemma_trimmed(pieces: Seq<Seq<char>>)
    requires
        forall|k: int| 0 <= k < pieces.len() ==> !(#[trigger] pieces[k]).contains(';') && !pieces[k].contains('\n'),
    ensures
        trimmed_pieces(pieces) matches Some(r) ==> r.len() == pieces.len() && forall|k: int|
            0 <= k < r.len() ==> is_piece(#[trigger] r[k]),
    decreases pieces.len(),
{
    if pieces.len() > 0 {
        let front = pieces.drop_last();
        assert forall|k: int| 0 <= k < front.len() implies !(#[trigger] front[k]).contains(';') && !front[k].contains(
            '\n',
        ) by {
            assert(!pieces[k].contains(';'));
        }
        lemma_trimmed(front);
        if let Some(r) = trimmed_pieces(pieces) {
            let last = pieces[pieces.len() - 1];
            lemma_trim_keeps(last, ';');
            lemma_trim_keeps(last, '\n');
            let f = trim(last);
            assert forall|k: int| 0 <= k < f.len() implies #[trigger] f[k] != ';' by {
                assert(f.contains(f[k]));
            }
            assert forall|k: int| 0 <= k < f.len() implies #[trigger] f[k] != '\n' by {
                assert(f.contains(f[k]));
            }
            assert(is_piece(f));
            assert forall|k: int| 0 <= k < r.len() implies is_piece(#[trigger] r[k]) by {
                if k < r.len() - 1 {
                    assert(r[k] == trimmed_pieces(front).unwrap()[k]);
                }
            }
        }
    }
}

proof fn lemma_space_within(s: Seq<char>)
    ensures
        last_space(s) matches Some(i) ==> 0 <= i < s.len(),
    decreases s.len(),
{
    if s.len() > 0 {
        lemma_space_within(s.drop_last());
    }
}

proof fn lemma_line_entry(line: Seq<char>)
    requires
        !line.contains('\n'),
    ensures
        line_entry(line) matches Ok(Some(e)) ==> are_entries(seq![e]),
{
    if let Ok(Some(e)) = line_entry(line) {
        let t = trim(line);
        lemma_trim_keeps(line, '\n');
        let (stack, value) = columns(line).unwrap().unwrap();
        let i = last_space(t).unwrap();
        lemma_space_within(t);
        lemma_sub(t, 0, i, '\n');
        assert(t.subrange(0, i) =~= t.take(i));
        lemma_trim_keeps(t.take(i), '\n');
        lemma_split(stack, ';');
        lemma_trimmed(split_on(stack, ';'));
        assert(seq![e][0] == e);
    }
}

proof fn lemma_lines_apart(s: Seq<char>)
    ensures
        forall|i: int| 0 <= i < lines(s).len() ==> !(#[trigger] lines(s)[i]).contains('\n'),
    decreases s.len(),
{
    if s.len() > 0 {
        lemma_index(s, '\n');
        if let Some(i) = first_index(s, '\n') {
            let one = s.take(i);
            if one.len() > 0 && one.last() == '\r' {
                lemma_sub(one, 0, one.len() - 1, '\n');
                assert(one.subrange(0, one.len() - 1) =~= one.drop_last());
            }
            lemma_lines_apart(s.skip(i + 1));
            assert forall|k: int| 0 <= k < lines(s).len() implies !(#[trigger] lines(s)[k]).contains('\n') by {
                if k > 0 {
                    assert(lines(s)[k] == lines(s.skip(i + 1))[k - 1]);
                }
            }
        }
    }
}

proof fn lemma_entries(ls: Seq<Seq<char>>)
    requires
        forall|i: int| 0 <= i < ls.len() ==> !(#[trigger] ls[i]).contains('\n'),
    ensures
        entries(ls) matches Ok(x) ==> are_entries(x),
    decreases ls.len(),
{
    if ls.len() > 0 {
        let front = ls.drop_last();
        assert forall|i: int| 0 <= i < front.len() implies !(#[trigger] front[i]).contains('\n') by {
            assert(!ls[i].contains('\n'));
        }
        lemma_entries(front);
        assert(!ls[ls.len() - 1].contains('\n'));
        lemma_line_entry(ls.last());
        if let Ok(x) = entries(ls) {
            let y = entries(front)->Ok_0;
            if let Ok(Some(e)) = line_entry(ls.last()) {
                assert forall|i: int| 0 <= i < x.len() implies {
                    &&& (#[trigger] x[i]).value > 0
                    &&& x[i].frames.len() > 0
                    &&& forall|k: int| 0 <= k < x[i].frames.len() ==> is_piece(#[trigger] x[i].frames[k])
                } by {
                    if i < y.len() {
                        assert(x[i] == y[i]);
                    } else {
                        assert(x[i] == seq![e][0]);
                    }
                }
            }
        }
    }
}

/// The stacks that a text holds have weight and names.
pub proof fn law_entries_have_names(text: Seq<char>)
    ensures
        entries(lines(text)) matches Ok(x) ==> are_entries(x),
{
    lemma_lines_apart(text);
    lemma_entries(lines(text));
}

/// The values of a stack added up.
pub open spec fn stack_sum(x: Seq<FoldedStackView>, frames: Seq<Seq<char>>) -> int
    decreases x.len(),
{
    if x.len() == 0 {
        0
    } else {
        stack_sum(x.drop_last(), frames) + if x.last().frames == frames {
            x.last().value as int
        } else {
            0
        }
    }
}

/// Whether a stack is among these.
pub open spec fn has_stack(x: Seq<FoldedStackView>, frames: Seq<Seq<char>>) -> bool {
    exists|i: int| 0 <= i < x.len() && (#[trigger] x[i]).frames == frames
}

proof fn lemma_split_joined(frames: Seq<Seq<char>>)
    requires
        frames.len() > 0,
        forall|k: int| 0 <= k < frames.len() ==> is_piece(#[trigger] frames[k]),
    ensures
        split_on(join(frames, seq![';']), ';') == frames,
    decreases frames.len(),
{
    let s = join(frames, seq![';']);
    assert(is_piece(frames[0]));
    if frames.len() == 1 {
        assert(frames.drop_last() =~= Seq::empty());
        assert(s =~= frames[0]);
        lemma_first_index(s, ';', Seq::empty());
        assert(seq![s] =~= frames);
    } else {
        let rest = frames.drop_first();
        assert forall|k: int| 0 <= k < rest.len() implies is_piece(#[trigger] rest[k]) by {
            assert(is_piece(frames[k + 1]));
        }
        lemma_split_joined(rest);
        lemma_join_front(frames);
        let tail = join(rest, seq![';']);
        lemma_first_index(frames[0], ';', tail);
        let i = frames[0].len() as int;
        assert(s.take(i) =~= frames[0]);
        assert(s.skip(i + 1) =~= tail);
        assert(seq![frames[0]] + rest =~= frames);
    }
}

/// The sum of a text.
spec fn sum_at(m: Seq<(Seq<char>, int)>, k: Seq<char>) -> Option<int>
    decreases m.len(),
{
    if m.len() == 0 {
        None
    } else if m[0].0 == k {
        Some(m[0].1)
    } else {
        sum_at(m.drop_first(), k)
    }
}

proof fn lemma_rest_ascends(m: Seq<(Seq<char>, int)>)
    requires
        ascending(m),
        m.len() > 0,
    ensures
        ascending(m.drop_first()),
{
    let t = m.drop_first();
    assert forall|i: int, j: int| 0 <= i < j < t.len() implies text_less(#[trigger] t[i].0, #[trigger] t[j].0) by {
        assert(text_less(m[i + 1].0, m[j + 1].0));
    }
}

proof fn lemma_sum_below(m: Seq<(Seq<char>, int)>, k: Seq<char>)
    requires
        ascending(m),
        m.len() > 0 ==> text_less(k, m[0].0),
    ensures
        sum_at(m, k) is None,
    decreases m.len(),
{
    if m.len() > 0 {
        lemma_less_not_equal(k, m[0].0);
        lemma_rest_ascends(m);
        if m.len() > 1 {
            assert(text_less(m[0].0, m[1].0));
            lemma_less_trans(k, m[0].0, m[1].0);
        }
        lemma_sum_below(m.drop_first(), k);
    }
}

proof fn lemma_sum_added(m: Seq<(Seq<char>, int)>, k: Seq<char>, v: int, key: Seq<char>)
    requires
        ascending(m),
    ensures
        sum_at(added(m, k, v), key) == if key == k {
            match sum_at(m, k) {
                Some(n) => Some(n + v),
                None => Some(v),
            }
        } else {
            sum_at(m, key)
        },
    decreases m.len(),
{
    let r = added(m, k, v);
    if m.len() == 0 {
        assert(r[0] == (k, v));
        assert(r.drop_first() =~= m);
    } else {
        let t = m.drop_first();
        lemma_rest_ascends(m);
        if m[0].0 == k {
            assert(r[0] == (k, m[0].1 + v));
            assert(r.drop_first() =~= t);
        } else if text_less(k, m[0].0) {
            assert(r[0] == (k, v));
            assert(r.drop_first() =~= m);
            lemma_sum_below(m, k);
        } else {
            assert(r[0] == m[0]);
            assert(r.drop_first() =~= added(t, k, v));
            lemma_sum_added(t, k, v, key);
        }
    }
}

proof fn lemma_sum_place(m: Seq<(Seq<char>, int)>, k: Seq<char>)
    requires
        ascending(m),
    ensures
        sum_at(m, k) matches Some(v) ==> exists|i: int| 0 <= i < m.len() && #[trigger] m[i] == (k, v),
        forall|i: int| 0 <= i < m.len() && (#[trigger] m[i]).0 == k ==> sum_at(m, k) == Some(m[i].1),
    decreases m.len(),
{
    if m.len() > 0 {
        let t = m.drop_first();
        lemma_rest_ascends(m);
        lemma_sum_place(t, k);
        if m[0].0 == k {
            assert(m[0] == (k, m[0].1));
            assert forall|i: int| 0 <= i < m.len() && (#[trigger] m[i]).0 == k implies sum_at(m, k) == Some(m[i].1) by {
                if i > 0 {
                    assert(text_less(m[0].0, m[i].0));
                    lemma_less_not_equal(m[0].0, m[i].0);
                }
            }
        } else {
            if let Some(v) = sum_at(m, k) {
                let i = choose|i: int| 0 <= i < t.len() && #[trigger] t[i] == (k, v);
                assert(m[i + 1] == (k, v));
            }
            assert forall|i: int| 0 <= i < m.len() && (#[trigger] m[i]).0 == k implies sum_at(m, k) == Some(m[i].1) by {
                assert(t[i - 1] == m[i]);
            }
        }
    }
}

/// What the sums of the first samples are.
proof fn lemma_sums(x: Seq<FoldedStackView>, opts: FoldedImportOptions, n: int, frames: Seq<Seq<char>>)
    requires
        are_entries(x),
        is_small(folded_tables(x, opts)),
        0 <= n <= x.len(),
        frames.len() > 0,
        forall|k: int| 0 <= k < frames.len() ==> is_piece(#[trigger] frames[k]),
    ensures
        sum_at(folded_sums(folded_profile(x, opts), folded_profile(x, opts).sample.take(n), 1), join(frames, seq![';']))
            == if has_stack(x.take(n), frames) {
            Some(stack_sum(x.take(n), frames))
        } else {
            None
        },
        !has_stack(x.take(n), frames) ==> stack_sum(x.take(n), frames) == 0,
    decreases n,
{
    let p = folded_profile(x, opts);
    let key = join(frames, seq![';']);
    if n == 0 {
        assert(!has_stack(x.take(0), frames));
    } else {
        lemma_sums(x, opts, n - 1, frames);
        let s = p.sample.take(n);
        let front = p.sample.take(n - 1);
        assert(s.drop_last() =~= front);
        assert(x.take(n).drop_last() =~= x.take(n - 1));
        let e = x[n - 1];
        assert(x.take(n).last() == e);
        law_imported_frames(x, opts, n - 1);
        let names = frame_names(p, s.last());
        assert(are_entries(x) && e.value > 0);
        assert forall|k: int| 0 <= k < e.frames.len() implies #[trigger] names[k] == e.frames[k] by {
            assert(is_piece(x[n - 1].frames[k]));
            let f = e.frames[k];
            assert(sample_frames(p, s.last())[k] == name_frames(e.frames)[k]);
            assert forall|j: int| 0 <= j < f.len() implies sanitized(f)[j] == f[j] by {
                assert(f[j] != ';');
                assert(f[j] != '\n');
            }
            assert(sanitized(f) =~= f);
        }
        assert(names =~= e.frames);
        let text = stack_text(p, s.last());
        assert(text == join(e.frames, seq![';']));
        let m = folded_sums(p, front, 1);
        law_folded_lines(p, front, 1);
        lemma_sum_added(m, text, e.value as int, key);
        if text == key {
            lemma_split_joined(frames);
            lemma_split_joined(e.frames);
            assert(e.frames == frames);
        }
        if e.frames == frames {
            assert(x.take(n)[n - 1].frames == frames);
        }
        if has_stack(x.take(n - 1), frames) {
            let i = choose|i: int| 0 <= i < x.take(n - 1).len() && (#[trigger] x.take(n - 1)[i]).frames == frames;
            assert(x.take(n)[i].frames == frames);
        }
        if has_stack(x.take(n), frames) && e.frames != frames {
            let i = choose|i: int| 0 <= i < x.take(n).len() && (#[trigger] x.take(n)[i]).frames == frames;
            assert(x.take(n - 1)[i].frames == frames);
        }
    }
}

proof fn lemma_all_exported(s: Seq<SampleView>)
    requires
        forall|i: int| 0 <= i < s.len() ==> is_exported(#[trigger] s[i], 1),
    ensures
        exported(s, 1) == s,
    decreases s.len(),
{
    if s.len() > 0 {
        let front = s.drop_last();
        assert forall|i: int| 0 <= i < front.len() implies is_exported(#[trigger] front[i], 1) by {
            assert(is_exported(s[i], 1));
        }
        lemma_all_exported(front);
        assert(is_exported(s[s.len() - 1], 1));
        assert(front.push(s.last()) =~= s);
    } else {
        assert(exported(s, 1) =~= s);
    }
}

/// Folded text that is imported and exported again has one line per distinct stack, with
/// the sum of its values, in order of the stacks. The counts of both ways agree.
pub proof fn law_import_export(
    text: Seq<char>,
    x: Seq<FoldedStackView>,
    opts: FoldedImportOptions,
    e: EncodedPprof,
    r: Result<(String, ExportStats), ExportError>,
)
    requires
        entries(lines(text)) == Ok::<Seq<FoldedStackView>, (int, LineError)>(x),
        imported(x, opts, Ok(e)),
        folded_as(folded_profile(x, opts), PprofExportOptions { value_index: Some(1) }, r),
        is_small(folded_tables(x, opts)),
    ensures
        ({
            let p = folded_profile(x, opts);
            let m = folded_sums(p, exported(p.sample, 1), 1);
            &&& r matches Ok((out, stats)) && out@ == folded_lines(m) && stats.total == e.stats.total && stats.stacks
                == e.stats.samples
            &&& ascending(m)
            &&& forall|j: int|
                0 <= j < x.len() ==> m.contains(
                    (join((#[trigger] x[j]).frames, seq![';']), stack_sum(x, x[j].frames)),
                )
            &&& forall|i: int|
                0 <= i < m.len() ==> exists|j: int|
                    0 <= j < x.len() && #[trigger] m[i] == (join(x[j].frames, seq![';']), stack_sum(x, x[j].frames))
        }),
{
    let p = folded_profile(x, opts);
    let m = folded_sums(p, exported(p.sample, 1), 1);
    law_entries_have_names(text);
    assert forall|i: int| 0 <= i < p.sample.len() implies is_exported(#[trigger] p.sample[i], 1) by {
        assert(x[i].value > 0);
    }
    lemma_all_exported(p.sample);
    assert(exported_values(p.sample, 1) =~= stack_values(x));
    law_folded_lines(p, p.sample, 1);
    assert(p.sample.take(x.len() as int) =~= p.sample);
    assert(x.take(x.len() as int) =~= x);
    assert forall|j: int| 0 <= j < x.len() implies m.contains(
        (join((#[trigger] x[j]).frames, seq![';']), stack_sum(x, x[j].frames)),
    ) by {
        assert(x[j].value > 0);
        lemma_sums(x, opts, x.len() as int, x[j].frames);
        lemma_sum_place(m, join(x[j].frames, seq![';']));
    }
    assert forall|i: int| 0 <= i < m.len() implies exists|j: int|
        0 <= j < x.len() && #[trigger] m[i] == (join(x[j].frames, seq![';']), stack_sum(x, x[j].frames)) by {
        lemma_sum_source(p, x, opts, x.len() as int, i);
        let j = choose|j: int| 0 <= j < x.len() && m[i].0 == join((#[trigger] x[j]).frames, seq![';']);
        assert(x[j].value > 0);
        lemma_sums(x, opts, x.len() as int, x[j].frames);
        lemma_sum_place(m, m[i].0);
        assert(m[i] == (join(x[j].frames, seq![';']), stack_sum(x, x[j].frames)));
    }
}

/// Each line of the export is that of a stack.
proof fn lemma_sum_source(p: ProfileView, x: Seq<FoldedStackView>, opts: FoldedImportOptions, n: int, i: int)
    requires
        p == folded_profile(x, opts),
        are_entries(x),
        is_small(folded_tables(x, opts)),
        0 <= n <= x.len(),
        0 <= i < folded_sums(p, p.sample.take(n), 1).len(),
    ensures
        exists|j: int|
            0 <= j < x.len() && folded_sums(p, p.sample.take(n), 1)[i].0 == join((#[trigger] x[j]).frames, seq![';']),
    decreases n,
{
    let m = folded_sums(p, p.sample.take(n), 1);
    if n > 0 {
        let front = p.sample.take(n - 1);
        assert(p.sample.take(n).drop_last() =~= front);
        let before = folded_sums(p, front, 1);
        let last = p.sample[n - 1];
        let e = x[n - 1];
        assert(e.value > 0);
        law_imported_frames(x, opts, n - 1);
        let names = frame_names(p, last);
        assert forall|k: int| 0 <= k < e.frames.len() implies #[trigger] names[k] == e.frames[k] by {
            assert(is_piece(x[n - 1].frames[k]));
            let f = e.frames[k];
            assert(sample_frames(p, last)[k] == name_frames(e.frames)[k]);
            assert forall|j: int| 0 <= j < f.len() implies sanitized(f)[j] == f[j] by {
                assert(f[j] != ';');
                assert(f[j] != '\n');
            }
            assert(sanitized(f) =~= f);
        }
        assert(names =~= e.frames);
        lemma_added_source(before, stack_text(p, last), value_at(last, 1) as int, i);
        if m[i].0 != stack_text(p, last) {
            let k = choose|k: int| 0 <= k < before.len() && (#[trigger] before[k]).0 == m[i].0;
            lemma_sum_source(p, x, opts, n - 1, k);
        } else {
            assert(m[i].0 == join(x[n - 1].frames, seq![';']));
        }
    }
}

proof fn lemma_added_source(m: Seq<(Seq<char>, int)>, k: Seq<char>, v: int, i: int)
    requires
        0 <= i < added(m, k, v).len(),
    ensures
        added(m, k, v)[i].0 == k || exists|j: int| 0 <= j < m.len() && (#[trigger] m[j]).0 == added(m, k, v)[i].0,
    decreases m.len(),
{
    let r = added(m, k, v);
    if m.len() > 0 {
        let t = m.drop_first();
        if m[0].0 == k {
            if i > 0 {
                assert(m[i].0 == r[i].0);
            }
        } else if text_less(k, m[0].0) {
            if i > 0 {
                assert(m[i - 1].0 == r[i].0);
            }
        } else if i > 0 {
            assert(r[i] == added(t, k, v)[i - 1]);
            lemma_added_source(t, k, v, i - 1);
            if r[i].0 != k {
                let j = choose|j: int| 0 <= j < t.len() && (#[trigger] t[j]).0 == r[i].0;
                assert(m[j + 1].0 == r[i].0);
            }
        } else {
            assert(m[0].0 == r[0].0);
        }
    }
}

} // verus!

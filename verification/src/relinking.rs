//! What the words of a compiler command become, and where the allocator's source is patched.
use vstd::prelude::*;
use crate::native::starts;
use crate::relink::{
    block_end, cc_line, command_words, compile_flags, ends, found_at, hooked_malloc, is_compile_flag,
    makes, malloc_head, names_file, patched, relinked, replaced, split_step, splitting, Relink, Splitting,
};
use crate::text::{is_space, trim};

verus! {

/// Whether a word is what an `-o` names.
pub open spec fn is_output(words: Seq<Seq<char>>, i: int) -> bool
    decreases i,
{
    i > 0 && words[i - 1] == "-o"@ && !is_output(words, i - 1)
}

/// Whether an `-o` at the end names nothing.
pub open spec fn names_nothing(words: Seq<Seq<char>>) -> bool {
    words.len() > 0 && words.last() == "-o"@ && !is_output(words, words.len() - 1)
}

proof fn lemma_output_shift(words: Seq<Seq<char>>, k: int, i: int)
    requires
        k == 1 || k == 2,
        0 <= i,
        k + i <= words.len(),
        k == 1 ==> words[0] != "-o"@,
        k == 2 ==> words[0] == "-o"@,
    ensures
        is_output(words.skip(k), i) == is_output(words, i + k),
    decreases i,
{
    reveal_with_fuel(is_output, 3);
    if i > 0 {
        lemma_output_shift(words, k, i - 1);
        assert(words.skip(k)[i - 1] == words[i + k - 1]);
    }
}

/// Whether a word of a rebuilt command is right: the binary behind an `-o` and the source are
/// replaced, and every other word stays.
pub open spec fn is_rebuilt(words: Seq<Seq<char>>, i: int, f: Relink, word: Seq<char>) -> bool {
    if is_output(words, i) {
        if names_file(words[i], f.original_exe@, f.original_exe_name@) {
            word == f.memprof_exe@
        } else {
            word == words[i]
        }
    } else if words[i] != "-o"@ && names_file(words[i], f.original_c@, f.original_c_name@) {
        word == f.patched_c@
    } else {
        word == words[i]
    }
}

/// A command is rebuilt word by word, unless its last `-o` names nothing.
pub proof fn law_rebuilt(words: Seq<Seq<char>>, f: Relink)
    ensures
        relinked(words, f) is None <==> names_nothing(words),
        relinked(words, f) matches Some(out) ==> out.len() == words.len() && forall|i: int|
            0 <= i < words.len() ==> is_rebuilt(words, i, f, #[trigger] out[i]),
    decreases words.len(),
{
    if words.len() == 0 {
    } else if words[0] == "-o"@ {
        reveal_with_fuel(is_output, 3);
        if words.len() > 1 {
            let rest = words.skip(2);
            law_rebuilt(rest, f);
            if rest.len() > 0 {
                lemma_output_shift(words, 2, rest.len() - 1);
                assert(rest.last() == words.last());
            }
            if let Some(out) = relinked(words, f) {
                let tail = relinked(rest, f).unwrap();
                assert forall|i: int| 0 <= i < words.len() implies is_rebuilt(words, i, f, #[trigger] out[i]) by {
                    if i >= 2 {
                        lemma_output_shift(words, 2, i - 2);
                        assert(out[i] == tail[i - 2]);
                        assert(is_rebuilt(rest, i - 2, f, tail[i - 2]));
                        assert(rest[i - 2] == words[i]);
                    }
                }
            }
        }
    } else {
        let rest = words.drop_first();
        assert(rest =~= words.skip(1));
        law_rebuilt(rest, f);
        if rest.len() > 0 {
            lemma_output_shift(words, 1, rest.len() - 1);
            assert(rest.last() == words.last());
        }
        if let Some(out) = relinked(words, f) {
            let tail = relinked(rest, f).unwrap();
            assert forall|i: int| 0 <= i < words.len() implies is_rebuilt(words, i, f, #[trigger] out[i]) by {
                if i >= 1 {
                    lemma_output_shift(words, 1, i - 1);
                    assert(out[i] == tail[i - 1]);
                    assert(is_rebuilt(rest, i - 1, f, tail[i - 1]));
                    assert(rest[i - 1] == words[i]);
                }
            }
        }
    }
}

/// Whether a flag goes with the word behind it.
pub open spec fn takes_word(w: Seq<char>) -> bool {
    w == "-o"@ || w == "-Xlinker"@ || w == "-framework"@ || w == "-z"@ || w == "-u"@ || w == "-T"@
}

/// Whether a word goes with the flag before it.
pub open spec fn is_taken(words: Seq<Seq<char>>, i: int) -> bool
    decreases i,
{
    i > 0 && takes_word(words[i - 1]) && !is_taken(words, i - 1)
}

proof fn lemma_taken_shift(words: Seq<Seq<char>>, k: int, i: int)
    requires
        k == 1 || k == 2,
        0 <= i,
        k + i <= words.len(),
        k == 1 ==> !takes_word(words[0]),
        k == 2 ==> takes_word(words[0]),
    ensures
        is_taken(words.skip(k), i) == is_taken(words, i + k),
    decreases i,
{
    reveal_with_fuel(is_taken, 3);
    if i > 0 {
        lemma_taken_shift(words, k, i - 1);
        assert(words.skip(k)[i - 1] == words[i + k - 1]);
    }
}

/// The flags for a compilation among the words from `i` on, in their order.
pub open spec fn flags_from(words: Seq<Seq<char>>, i: int) -> Seq<Seq<char>>
    decreases words.len() - i,
{
    if i < 0 || i >= words.len() {
        Seq::empty()
    } else if !is_taken(words, i) && !takes_word(words[i]) && is_compile_flag(words[i]) {
        seq![words[i]] + flags_from(words, i + 1)
    } else {
        flags_from(words, i + 1)
    }
}

proof fn lemma_flags_shift(words: Seq<Seq<char>>, k: int, i: int)
    requires
        k == 1 || k == 2,
        0 <= i,
        k + i <= words.len(),
        k == 1 ==> !takes_word(words[0]),
        k == 2 ==> takes_word(words[0]),
    ensures
        flags_from(words.skip(k), i) == flags_from(words, i + k),
    decreases words.len() - i,
{
    let rest = words.skip(k);
    if i < rest.len() {
        lemma_taken_shift(words, k, i);
        assert(rest[i] == words[i + k]);
        lemma_flags_shift(words, k, i + 1);
    }
}

/// The flags of a command are those words that are for a compilation and go with no other.
pub proof fn law_flags(words: Seq<Seq<char>>)
    ensures
        compile_flags(words) == flags_from(words, 0),
    decreases words.len(),
{
    if words.len() > 0 {
        reveal_with_fuel(is_taken, 3);
        if takes_word(words[0]) {
            if words.len() == 1 {
                assert(flags_from(words, 1) == Seq::<Seq<char>>::empty());
            } else {
                law_flags(words.skip(2));
                lemma_flags_shift(words, 2, 0);
                assert(flags_from(words, 1) == flags_from(words, 2));
            }
        } else {
            let rest = words.drop_first();
            assert(rest =~= words.skip(1));
            law_flags(rest);
            lemma_flags_shift(words, 1, 0);
            assert(compile_flags(words) =~= flags_from(words, 0));
        }
    }
}

/// What is for the linker is not for a compilation: libraries and their directories, what is
/// handed on, and how the binary is made and loaded.
pub proof fn law_link_flags(more: Seq<char>)
    ensures
        !is_compile_flag("-l"@ + more),
        !is_compile_flag("-L"@ + more),
        !is_compile_flag("-Wl,"@ + more),
        !is_compile_flag("-fuse-ld="@ + more),
        !is_compile_flag("-static-"@ + more),
        !is_compile_flag("-rdynamic"@),
        !is_compile_flag("-shared"@),
        !is_compile_flag("-static"@),
        !is_compile_flag("-pie"@),
        !is_compile_flag("-no-pie"@),
        !is_compile_flag("-s"@),
        !is_compile_flag("-nostdlib"@),
        !is_compile_flag("-nodefaultlibs"@),
        !is_compile_flag("-nostartfiles"@),
        !is_compile_flag("-c"@),
        !is_compile_flag(more + ".c"@),
        !is_compile_flag(more + ".o"@),
        !is_compile_flag(more + ".a"@),
        !is_compile_flag(more + ".dylib"@),
        !is_compile_flag(more + ".so"@),
{
    lemma_starts("-l"@, more);
    lemma_starts("-L"@, more);
    lemma_starts("-Wl,"@, more);
    lemma_starts("-fuse-ld="@, more);
    lemma_starts("-static-"@, more);
    lemma_ends(more, ".c"@);
    lemma_ends(more, ".o"@);
    lemma_ends(more, ".a"@);
    lemma_ends(more, ".dylib"@);
    lemma_ends(more, ".so"@);
}

proof fn lemma_starts(a: Seq<char>, b: Seq<char>)
    ensures
        starts(a + b, a),
{
    assert((a + b).take(a.len() as int) =~= a);
}

proof fn lemma_ends(a: Seq<char>, b: Seq<char>)
    ensures
        ends(a + b, b),
{
    assert((a + b).skip(a.len() as int) =~= b);
}

/// A flag that begins with another letter is for a compilation, such as one of `-D`, `-I`,
/// `-O` and `-g`, unless it ends like a file.
pub proof fn law_other_flags(c: char, more: Seq<char>)
    requires
        c != 'l' && c != 'L' && c != 'W' && c != 'r' && c != 's' && c != 'p' && c != 'n' && c != 'f' && c != 'c',
        !ends(seq!['-', c] + more, ".c"@),
        !ends(seq!['-', c] + more, ".o"@),
        !ends(seq!['-', c] + more, ".a"@),
        !ends(seq!['-', c] + more, ".dylib"@),
        !ends(seq!['-', c] + more, ".so"@),
    ensures
        is_compile_flag(seq!['-', c] + more),
{
    let s = seq!['-', c] + more;
    reveal_strlit("-");
    reveal_strlit("-c");
    reveal_strlit("-l");
    reveal_strlit("-L");
    reveal_strlit("-Wl,");
    reveal_strlit("-fuse-ld=");
    reveal_strlit("-static-");
    reveal_strlit("-rdynamic");
    reveal_strlit("-shared");
    reveal_strlit("-static");
    reveal_strlit("-pie");
    reveal_strlit("-no-pie");
    reveal_strlit("-s");
    reveal_strlit("-nostdlib");
    reveal_strlit("-nodefaultlibs");
    reveal_strlit("-nostartfiles");
    assert(s[0] == '-' && s[1] == c);
    assert(s.take(1) =~= "-"@);
    lemma_other_head(s, "-l"@);
    lemma_other_head(s, "-L"@);
    lemma_other_head(s, "-Wl,"@);
    lemma_other_head(s, "-fuse-ld="@);
    lemma_other_head(s, "-static-"@);
    assert("-c"@[1] == 'c' && "-rdynamic"@[1] == 'r' && "-shared"@[1] == 's' && "-static"@[1] == 's' && "-pie"@[1]
        == 'p' && "-no-pie"@[1] == 'n' && "-s"@[1] == 's' && "-nostdlib"@[1] == 'n' && "-nodefaultlibs"@[1] == 'n'
        && "-nostartfiles"@[1] == 'n');
}

proof fn lemma_other_head(s: Seq<char>, head: Seq<char>)
    requires
        s.len() > 1,
        head.len() > 1,
        s[1] != head[1],
    ensures
        !starts(s, head),
{
    if starts(s, head) {
        assert(s.take(head.len() as int)[1] == head[1]);
    }
}

/// The command for a binary is the first line, without the spaces around it, that is a
/// compiler's and names the binary.
pub proof fn law_compiler_line(text: Seq<Seq<char>>, exe: Seq<char>)
    ensures
        match cc_line(text, exe) {
            Some(l) => exists|i: int|
                {
                    &&& 0 <= i < text.len()
                    &&& l == trim(#[trigger] text[i])
                    &&& makes(l, exe)
                    &&& forall|j: int| 0 <= j < i ==> !makes(trim(#[trigger] text[j]), exe)
                },
            None => forall|j: int| 0 <= j < text.len() ==> !makes(trim(#[trigger] text[j]), exe),
        },
    decreases text.len(),
{
    if text.len() > 0 {
        let rest = text.drop_first();
        if makes(trim(text[0]), exe) {
            assert(text[0] == text[0]);
        } else {
            law_compiler_line(rest, exe);
            match cc_line(rest, exe) {
                Some(l) => {
                    let i = choose|i: int|
                        {
                            &&& 0 <= i < rest.len()
                            &&& l == trim(#[trigger] rest[i])
                            &&& makes(l, exe)
                            &&& forall|j: int| 0 <= j < i ==> !makes(trim(#[trigger] rest[j]), exe)
                        };
                    assert(text[i + 1] == rest[i]);
                    assert forall|j: int| 0 <= j < i + 1 implies !makes(trim(#[trigger] text[j]), exe) by {
                        if j > 0 {
                            assert(rest[j - 1] == text[j]);
                        }
                    }
                },
                None => {
                    assert forall|j: int| 0 <= j < text.len() implies !makes(trim(#[trigger] text[j]), exe) by {
                        if j > 0 {
                            assert(rest[j - 1] == text[j]);
                        }
                    }
                },
            }
        }
    }
}

/// Whether a text stands in another at a place.
pub open spec fn stands_at(s: Seq<char>, needle: Seq<char>, i: int) -> bool {
    0 <= i && i + needle.len() <= s.len() && s.subrange(i, i + needle.len()) == needle
}

/// A text is found where it first stands.
pub proof fn law_found_first(s: Seq<char>, needle: Seq<char>)
    ensures
        match found_at(s, needle) {
            Some(i) => stands_at(s, needle, i) && forall|j: int| 0 <= j < i ==> !#[trigger] stands_at(s, needle, j),
            None => forall|j: int| !#[trigger] stands_at(s, needle, j),
        },
    decreases s.len(),
{
    if starts(s, needle) {
        assert(s.subrange(0, needle.len() as int) =~= s.take(needle.len() as int));
    } else {
        if stands_at(s, needle, 0) {
            assert(s.subrange(0, needle.len() as int) =~= s.take(needle.len() as int));
        }
        if s.len() > 0 {
            let rest = s.drop_first();
            law_found_first(rest, needle);
            assert forall|j: int| 0 < j implies #[trigger] stands_at(s, needle, j) == stands_at(rest, needle, j - 1) by {
                if j + needle.len() <= s.len() {
                    assert(s.subrange(j, j + needle.len()) =~= rest.subrange(j - 1, j - 1 + needle.len()));
                }
            }
            match found_at(rest, needle) {
                Some(i) => {
                    assert(stands_at(s, needle, i + 1));
                    assert forall|j: int| 0 <= j < i + 1 implies !#[trigger] stands_at(s, needle, j) by {
                        if j > 0 {
                            assert(!stands_at(rest, needle, j - 1));
                        }
                    }
                },
                None => {
                    assert forall|j: int| !#[trigger] stands_at(s, needle, j) by {
                        if j > 0 {
                            assert(!stands_at(rest, needle, j - 1));
                        }
                    }
                },
            }
        } else {
            assert forall|j: int| !#[trigger] stands_at(s, needle, j) by {
                if stands_at(s, needle, j) {
                    assert(j == 0);
                }
            }
        }
    }
}

/// How many more braces open than close.
pub open spec fn depth(s: Seq<char>) -> int
    decreases s.len(),
{
    if s.len() == 0 {
        0
    } else {
        depth(s.drop_last()) + if s.last() == '{' {
            1int
        } else if s.last() == '}' {
            -1
        } else {
            0
        }
    }
}

/// Whether braces match within a text.
pub open spec fn is_balanced(s: Seq<char>) -> bool {
    depth(s) == 0 && forall|n: int| 0 <= n <= s.len() ==> depth(#[trigger] s.take(n)) >= 0
}

proof fn lemma_depth_front(s: Seq<char>)
    requires
        s.len() > 0,
    ensures
        depth(s) == depth(s.drop_first()) + if s[0] == '{' {
            1int
        } else if s[0] == '}' {
            -1
        } else {
            0
        },
    decreases s.len(),
{
    if s.len() == 1 {
        assert(s.drop_first() =~= Seq::empty());
        assert(s.drop_last() =~= Seq::empty());
    } else {
        lemma_depth_front(s.drop_last());
        assert(s.drop_first().drop_last() =~= s.drop_last().drop_first());
        assert(s.drop_first().last() == s.last());
    }
}

proof fn lemma_block(body: Seq<char>, rest: Seq<char>, d: nat)
    requires
        d > 0,
        d + depth(body) == 1,
        forall|n: int| 0 <= n <= body.len() ==> d + depth(#[trigger] body.take(n)) > 0,
    ensures
        block_end(body + seq!['}'] + rest, d) == Some(body.len() as int + 1),
    decreases body.len(),
{
    let s = body + seq!['}'] + rest;
    if body.len() == 0 {
        assert(s[0] == '}');
    } else {
        let more = body.drop_first();
        assert(s[0] == body[0]);
        assert(s.drop_first() =~= more + seq!['}'] + rest);
        lemma_depth_front(body);
        let step = if body[0] == '{' {
            1int
        } else if body[0] == '}' {
            -1
        } else {
            0
        };
        assert forall|n: int| 0 <= n <= more.len() implies d + step + depth(#[trigger] more.take(n)) > 0 by {
            let t = body.take(n + 1);
            lemma_depth_front(t);
            assert(t.drop_first() =~= more.take(n));
        }
        assert(more.take(0) =~= Seq::empty());
        assert(d + step + depth(more.take(0)) > 0);
        lemma_block(more, rest, (d + step) as nat);
    }
}

/// The first allocator in generated source is replaced up to its closing brace, and everything
/// around it stays.
pub proof fn law_allocator_patched(before: Seq<char>, body: Seq<char>, after: Seq<char>)
    requires
        is_balanced(body),
        forall|i: int|
            0 <= i < before.len() ==> !#[trigger] stands_at(
                before + malloc_head() + body + seq!['}'] + after,
                malloc_head(),
                i,
            ),
    ensures
        patched(before + malloc_head() + body + seq!['}'] + after) matches Ok(out) && out == before + hooked_malloc()
            + after,
{
    let head = malloc_head();
    let src = before + head + body + seq!['}'] + after;
    let at = before.len() as int;
    law_found_first(src, head);
    assert(stands_at(src, head, at)) by {
        assert(src.subrange(at, at + head.len()) =~= head);
    }
    assert(found_at(src, head) == Some(at)) by {
        match found_at(src, head) {
            Some(i) => {
                if i < at {
                    assert(stands_at(src, head, i));
                }
                if i > at {
                    assert(!stands_at(src, head, at));
                }
            },
            None => {
                assert(!stands_at(src, head, at));
            },
        }
    }
    let start = at + head.len();
    assert(src.skip(start) =~= body + seq!['}'] + after);
    assert forall|n: int| 0 <= n <= body.len() implies 1 + depth(#[trigger] body.take(n)) > 0 by {}
    lemma_block(body, after, 1);
    assert(src.take(at) =~= before);
    assert(src.skip(start + body.len() + 1) =~= after);
}

/// Source without the allocator is refused.
pub proof fn law_no_allocator(src: Seq<char>)
    requires
        forall|i: int| !#[trigger] stands_at(src, malloc_head(), i),
    ensures
        patched(src) is Err,
{
    law_found_first(src, malloc_head());
}


proof fn lemma_inside(s: Seq<char>, w: Seq<char>)
    requires
        forall|i: int| 0 <= i < w.len() ==> #[trigger] w[i] != '\'' && (!splitting(s).quoted ==> !is_space(w[i])),
    ensures
        splitting(s + w) == (Splitting { word: splitting(s).word + w, ..splitting(s) }),
    decreases w.len(),
{
    if w.len() == 0 {
        assert(s + w =~= s);
        assert(splitting(s).word + w =~= splitting(s).word);
    } else {
        let v = w.drop_last();
        assert forall|i: int| 0 <= i < v.len() implies #[trigger] v[i] != '\'' && (!splitting(s).quoted ==> !is_space(
            v[i],
        )) by {
            assert(w[i] != '\'');
        }
        lemma_inside(s, v);
        assert((s + w).drop_last() =~= s + v);
        let c = w[w.len() - 1];
        assert(c != '\'');
        assert((splitting(s).word + v).push(c) =~= splitting(s).word + w);
    }
}

/// One more word behind a space is one more word of the command, and so is one in quotes,
/// whatever spaces it holds.
pub proof fn law_word_added(s: Seq<char>, words: Seq<Seq<char>>, w: Seq<char>, q: Seq<char>)
    requires
        command_words(s) == Some(words),
        w.len() > 0,
        forall|i: int| 0 <= i < w.len() ==> !is_space(#[trigger] w[i]) && w[i] != '\'',
        q.len() > 0,
        forall|i: int| 0 <= i < q.len() ==> #[trigger] q[i] != '\'',
    ensures
        command_words(s + seq![' '] + w) == Some(words.push(w)),
        command_words(s + seq![' ', '\''] + q + seq!['\'']) == Some(words.push(q)),
{
    let a = s + seq![' '];
    assert(a.drop_last() =~= s);
    assert(a.last() == ' ');
    assert(splitting(a) == split_step(splitting(s), ' '));
    assert(splitting(a).word =~= Seq::empty());
    assert(splitting(a).done == words);
    assert(!splitting(a).quoted);
    lemma_inside(a, w);
    assert(splitting(a).word + w =~= w);
    let b = s + seq![' ', '\''];
    assert(b.drop_last() =~= a);
    assert(b.last() == '\'');
    assert(splitting(b).quoted);
    lemma_inside(b, q);
    assert(splitting(b).word + q =~= q);
    let c = b + q + seq!['\''];
    assert(c.drop_last() =~= b + q);
    assert(c.last() == '\'');
}

/// Each place of a text is replaced, from the left, and what stands around it stays.
pub proof fn law_replaced(a: Seq<char>, from: Seq<char>, to: Seq<char>, b: Seq<char>)
    requires
        from.len() > 0,
        forall|i: int| 0 <= i < a.len() ==> !#[trigger] stands_at(a + from + b, from, i),
    ensures
        replaced(a + from + b, from, to) == a + to + replaced(b, from, to),
    decreases a.len(),
{
    let s = a + from + b;
    let n = from.len() as int;
    if a.len() == 0 {
        assert(s.take(n) =~= from);
        assert(s.skip(n) =~= b);
        assert(a + to =~= to);
    } else {
        let rest = a.drop_first();
        assert(!stands_at(s, from, 0));
        if starts(s, from) {
            assert(s.subrange(0, n) =~= s.take(n));
        }
        assert(s.drop_first() =~= rest + from + b);
        assert(s[0] == a[0]);
        assert forall|i: int| 0 <= i < rest.len() implies !#[trigger] stands_at(rest + from + b, from, i) by {
            assert(!stands_at(s, from, i + 1));
            if i + n <= (rest + from + b).len() {
                assert((rest + from + b).subrange(i, i + n) =~= s.subrange(i + 1, i + 1 + n));
            }
        }
        law_replaced(rest, from, to, b);
        assert(seq![a[0]] + (rest + to + replaced(b, from, to)) =~= a + to + replaced(b, from, to));
    }
}

/// A text in which another does not stand is left as it is.
pub proof fn law_nothing_replaced(s: Seq<char>, from: Seq<char>, to: Seq<char>)
    requires
        from.len() > 0,
        forall|i: int| !#[trigger] stands_at(s, from, i),
    ensures
        replaced(s, from, to) == s,
    decreases s.len(),
{
    let n = from.len() as int;
    if s.len() > 0 {
        assert(!stands_at(s, from, 0));
        if starts(s, from) {
            assert(s.subrange(0, n) =~= s.take(n));
        }
        let rest = s.drop_first();
        assert forall|i: int| !#[trigger] stands_at(rest, from, i) by {
            assert(!stands_at(s, from, i + 1));
            if 0 <= i && i + n <= rest.len() {
                assert(rest.subrange(i, i + n) =~= s.subrange(i + 1, i + 1 + n));
            }
        }
        law_nothing_replaced(rest, from, to);
        assert(seq![s[0]] + rest =~= s);
    }
}

} // verus!

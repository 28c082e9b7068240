//! Rebuilding a native binary with an allocation hook: the compiler command of a build, and
//! the generated source.
use vstd::prelude::*;
use vstd::slice::slice_subrange;
use vstd::string::StringExecFns;
use crate::native::{begins, starts};
use crate::proto::texts;
use crate::text::{
    append_chars, chars_of, lines, next_line, same_chars, space, string_of, trim, trimmed, is_space,
};

verus! {

/// Whether a text ends with another.
pub open spec fn ends(s: Seq<char>, tail: Seq<char>) -> bool {
    tail.len() <= s.len() && s.skip(s.len() - tail.len()) == tail
}

/// Where a text first stands in another.
pub open spec fn found_at(s: Seq<char>, needle: Seq<char>) -> Option<int>
    decreases s.len(),
{
    if starts(s, needle) {
        Some(0)
    } else if s.len() == 0 {
        None
    } else {
        match found_at(s.drop_first(), needle) {
            Some(i) => Some(i + 1),
            None => None,
        }
    }
}

/// A space as words of a command are split at.
pub open spec fn is_ascii_space(c: char) -> bool {
    c == ' ' || c == '\t' || c == '\n' || c == '\r' || c == '\u{c}'
}

/// A text up to the first space.
pub open spec fn up_to_space(s: Seq<char>) -> Seq<char>
    decreases s.len(),
{
    if s.len() == 0 || is_ascii_space(s[0]) {
        Seq::empty()
    } else {
        seq![s[0]] + up_to_space(s.drop_first())
    }
}

/// The first word of a text.
pub open spec fn first_word(s: Seq<char>) -> Seq<char>
    decreases s.len(),
{
    if s.len() > 0 && is_ascii_space(s[0]) {
        first_word(s.drop_first())
    } else {
        up_to_space(s)
    }
}

/// Whether a line is a command of a C compiler.
pub open spec fn is_cc(line: Seq<char>) -> bool {
    let first = first_word(line);
    ||| ends(first, "/cc"@)
    ||| ends(first, "/gcc"@)
    ||| ends(first, "/clang"@)
    ||| first == "cc"@
    ||| first == "gcc"@
    ||| first == "clang"@
}

/// Whether a line is the compiler command that makes a binary of this file name.
pub open spec fn makes(line: Seq<char>, exe: Seq<char>) -> bool {
    is_cc(line) && (found_at(line, "/"@ + exe) is Some || ends(line, exe))
}

/// The first line that makes a binary of this file name, without the spaces around it.
pub open spec fn cc_line(text: Seq<Seq<char>>, exe: Seq<char>) -> Option<Seq<char>>
    decreases text.len(),
{
    if text.len() == 0 {
        None
    } else if makes(trim(text[0]), exe) {
        Some(trim(text[0]))
    } else {
        cc_line(text.drop_first(), exe)
    }
}

/// Whether a text ends with another.
pub(crate) fn finishes(s: &[char], tail: &str) -> (r: bool)
    ensures
        r == ends(s@, tail@),
{
    let t = chars_of(tail);
    if t.len() > s.len() {
        return false;
    }
    let back = slice_subrange(s, s.len() - t.len(), s.len());
    assert(back@ =~= s@.skip(s@.len() - t@.len()));
    same_chars(back, t.as_slice())
}

/// Where a text first stands in another.
fn find(s: &[char], needle: &[char]) -> (r: Option<usize>)
    ensures
        match r {
            Some(i) => found_at(s@, needle@) == Some(i as int) && i + needle@.len() <= s@.len(),
            None => found_at(s@, needle@) is None,
        },
{
    let n: usize = needle.len();
    let mut i: usize = 0;
    assert(s@.skip(0) =~= s@);
    while i <= s.len()
        invariant
            i <= s@.len() + 1,
            n == needle@.len(),
            i <= s@.len() ==> match found_at(s@.skip(i as int), needle@) {
                Some(k) => found_at(s@, needle@) == Some(k + i),
                None => found_at(s@, needle@) is None,
            },
            i > s@.len() ==> found_at(s@, needle@) is None,
        decreases s@.len() + 1 - i,
    {
        if s.len() - i < n {
            proof {
                lemma_too_short(s@.skip(i as int), needle@);
            }
            return None;
        }
        let part = slice_subrange(s, i, i + n);
        assert(part@ =~= s@.skip(i as int).take(n as int));
        if same_chars(part, needle) {
            return Some(i);
        }
        proof {
            if i < s@.len() {
                assert(s@.skip(i as int).drop_first() =~= s@.skip(i + 1));
            }
        }
        if i == s.len() {
            return None;
        }
        i += 1;
    }
    None
}

proof fn lemma_too_short(s: Seq<char>, needle: Seq<char>)
    requires
        s.len() < needle.len(),
    ensures
        found_at(s, needle) is None,
    decreases s.len(),
{
    if s.len() > 0 {
        lemma_too_short(s.drop_first(), needle);
    }
}

fn ascii_space(c: char) -> (r: bool)
    ensures
        r == is_ascii_space(c),
{
    c == ' ' || c == '\t' || c == '\n' || c == '\r' || c == '\u{c}'
}

fn word(s: &[char]) -> (r: Vec<char>)
    ensures
        r@ == first_word(s@),
{
    let mut i: usize = 0;
    assert(s@.skip(0) =~= s@);
    while i < s.len() && ascii_space(s[i])
        invariant
            i <= s@.len(),
            first_word(s@) == first_word(s@.skip(i as int)),
        decreases s@.len() - i,
    {
        assert(s@.skip(i as int)[0] == s@[i as int]);
        assert(s@.skip(i as int).drop_first() =~= s@.skip(i + 1));
        i += 1;
    }
    let mut r: Vec<char> = Vec::new();
    proof {
        if i < s@.len() {
            assert(s@.skip(i as int)[0] == s@[i as int]);
        }
        assert(first_word(s@) == up_to_space(s@.skip(i as int)));
        assert(r@ + up_to_space(s@.skip(i as int)) =~= first_word(s@));
    }
    while i < s.len() && !ascii_space(s[i])
        invariant
            i <= s@.len(),
            first_word(s@) == r@ + up_to_space(s@.skip(i as int)),
        decreases s@.len() - i,
    {
        let ghost before = r@;
        r.push(s[i]);
        proof {
            let rest = s@.skip(i as int);
            assert(rest[0] == s@[i as int]);
            assert(rest.drop_first() =~= s@.skip(i + 1));
            assert(before + (seq![s@[i as int]] + up_to_space(s@.skip(i + 1))) =~= r@ + up_to_space(s@.skip(i + 1)));
        }
        i += 1;
    }
    proof {
        if i < s@.len() {
            assert(s@.skip(i as int)[0] == s@[i as int]);
        }
        assert(up_to_space(s@.skip(i as int)) =~= Seq::empty());
        assert(r@ + Seq::<char>::empty() =~= r@);
    }
    r
}

fn is_text(s: &[char], text: &str) -> (r: bool)
    ensures
        r == (s@ == text@),
{
    let t = chars_of(text);
    same_chars(s, t.as_slice())
}

/// Whether a line is a command of a C compiler.
pub fn is_cc_invocation(line: &[char]) -> (r: bool)
    ensures
        r == is_cc(line@),
{
    let first = word(line);
    let f = first.as_slice();
    finishes(f, "/cc") || finishes(f, "/gcc") || finishes(f, "/clang") || is_text(f, "cc") || is_text(f, "gcc")
        || is_text(f, "clang")
}

/// The compiler command that makes a binary of this file name, out of the commands of a
/// build.
pub fn find_cc_line_for_exe(dry_text: &str, exe_filename: &str) -> (r: Option<String>)
    ensures
        match r {
            Some(s) => cc_line(lines(dry_text@), exe_filename@) == Some(s@),
            None => cc_line(lines(dry_text@), exe_filename@) is None,
        },
{
    let all = chars_of(dry_text);
    let mut needle = "/".to_owned();
    needle.append(exe_filename);
    let needle = chars_of(needle.as_str());
    let mut rest: &[char] = all.as_slice();
    while rest.len() > 0
        invariant
            needle@ == "/"@ + exe_filename@,
            cc_line(lines(rest@), exe_filename@) == cc_line(lines(dry_text@), exe_filename@),
        decreases rest@.len(),
    {
        let (line, after) = next_line(rest);
        let t = trimmed(line);
        proof {
            let ls = lines(rest@);
            assert(ls[0] == line@);
            assert(ls.drop_first() =~= lines(after@));
        }
        if is_cc_invocation(t) && (find(t, needle.as_slice()).is_some() || finishes(t, exe_filename)) {
            return Some(string_of(t));
        }
        rest = after;
    }
    None
}

/// A command while it is split: the words that are complete, the one that is being read,
/// and whether it is within quotes.
pub struct Splitting {
    pub done: Seq<Seq<char>>,
    pub word: Seq<char>,
    pub quoted: bool,
}

/// What one more character does. Single quotes hold spaces together, and nothing else is
/// special.
pub open spec fn split_step(s: Splitting, c: char) -> Splitting {
    if c == '\'' {
        Splitting { quoted: !s.quoted, ..s }
    } else if !s.quoted && is_space(c) {
        if s.word.len() == 0 {
            s
        } else {
            Splitting { done: s.done.push(s.word), word: Seq::empty(), ..s }
        }
    } else {
        Splitting { word: s.word.push(c), ..s }
    }
}

/// A command split as far as it goes.
pub open spec fn splitting(s: Seq<char>) -> Splitting
    decreases s.len(),
{
    if s.len() == 0 {
        Splitting { done: Seq::empty(), word: Seq::empty(), quoted: false }
    } else {
        split_step(splitting(s.drop_last()), s.last())
    }
}

/// The words of a command. `None` stands for a quote that is not closed.
pub open spec fn command_words(s: Seq<char>) -> Option<Seq<Seq<char>>> {
    let x = splitting(s);
    if x.quoted {
        None
    } else if x.word.len() == 0 {
        Some(x.done)
    } else {
        Some(x.done.push(x.word))
    }
}

/// Splits a command into words. `None` stands for a quote that is not closed.
pub fn shell_split(line: &str) -> (r: Option<Vec<String>>)
    ensures
        match r {
            Some(w) => command_words(line@) == Some(texts(w@)),
            None => command_words(line@) is None,
        },
{
    let s = chars_of(line);
    let mut done: Vec<String> = Vec::new();
    let mut word: String = String::new();
    let mut quoted: bool = false;
    assert(texts(done@) =~= splitting(s@.take(0)).done);
    assert(word@ =~= splitting(s@.take(0)).word);
    for i in 0..s.len()
        invariant
            texts(done@) == splitting(s@.take(i as int)).done,
            word@ == splitting(s@.take(i as int)).word,
            quoted == splitting(s@.take(i as int)).quoted,
    {
        let c: char = s[i];
        let ghost before = texts(done@);
        let ghost w = word@;
        proof {
            assert(s@.take(i + 1).drop_last() =~= s@.take(i as int));
            assert(s@.take(i + 1).last() == c);
        }
        if c == '\'' {
            quoted = !quoted;
        } else if !quoted && space(c) {
            if !word.as_str().is_empty() {
                done.push(word);
                word = String::new();
                assert(texts(done@) =~= before.push(w));
            } else {
                assert(w.len() == 0);
            }
        } else {
            word.push(c);
        }
    }
    assert(s@.take(s@.len() as int) =~= s@);
    if quoted {
        return None;
    }
    if !word.as_str().is_empty() {
        let ghost before = texts(done@);
        let ghost w = word@;
        done.push(word);
        assert(texts(done@) =~= before.push(w));
    }
    Some(done)
}

proof fn lemma_split_inside(s: Splitting, head: Seq<char>, w: Seq<char>)
    requires
        splitting(head) == s,
        s.quoted,
        forall|i: int| 0 <= i < w.len() ==> #[trigger] w[i] != '\'',
    ensures
        splitting(head + w) == (Splitting { word: s.word + w, ..s }),
    decreases w.len(),
{
    if w.len() == 0 {
        assert(head + w =~= head);
        assert(s.word + w =~= s.word);
    } else {
        let v = w.drop_last();
        assert forall|i: int| 0 <= i < v.len() implies #[trigger] v[i] != '\'' by {
            assert(w[i] != '\'');
        }
        lemma_split_inside(s, head, v);
        assert((head + w).drop_last() =~= head + v);
        assert((head + w).last() == w.last());
        assert(w[w.len() - 1] != '\'');
        assert((s.word + v).push(w.last()) =~= s.word + w);
    }
}

/// A word in single quotes is one word, whatever else it holds.
pub proof fn law_quoted_word(w: Seq<char>)
    requires
        w.len() > 0,
        forall|i: int| 0 <= i < w.len() ==> #[trigger] w[i] != '\'',
    ensures
        command_words(seq!['\''] + w + seq!['\'']) == Some(seq![w]),
{
    let open = seq!['\''];
    let none = Seq::<char>::empty();
    assert(open.drop_last() =~= none);
    assert(open.last() == '\'');
    assert(splitting(none) == (Splitting { done: Seq::empty(), word: none, quoted: false }));
    let s = Splitting { done: Seq::empty(), word: none, quoted: true };
    assert(splitting(open) == s);
    lemma_split_inside(s, open, w);
    let all = open + w + seq!['\''];
    assert(all.drop_last() =~= open + w);
    assert(all.last() == '\'');
    assert(none + w =~= w);
    assert(Seq::<Seq<char>>::empty().push(w) =~= seq![w]);
}

/// A text with every occurrence of another replaced, from the left.
pub open spec fn replaced(s: Seq<char>, from: Seq<char>, to: Seq<char>) -> Seq<char>
    decreases s.len(),
{
    if s.len() == 0 || from.len() == 0 {
        s
    } else if starts(s, from) {
        to + replaced(s.skip(from.len() as int), from, to)
    } else {
        seq![s[0]] + replaced(s.drop_first(), from, to)
    }
}

fn replace(text: &str, from: &str, to: &str) -> (r: String)
    requires
        from@.len() > 0,
    ensures
        r@ == replaced(text@, from@, to@),
{
    let s = chars_of(text);
    let f = chars_of(from);
    let mut out = String::new();
    let mut i: usize = 0;
    assert(s@.skip(0) =~= s@);
    assert(out@ + replaced(s@.skip(0), from@, to@) =~= replaced(s@, from@, to@));
    while i < s.len()
        invariant
            i <= s@.len(),
            f@ == from@,
            from@.len() > 0,
            replaced(s@, from@, to@) == out@ + replaced(s@.skip(i as int), from@, to@),
        decreases s@.len() - i,
    {
        let ghost before = out@;
        let ghost rest = s@.skip(i as int);
        let tail = slice_subrange(s.as_slice(), i, s.len());
        assert(tail@ =~= rest);
        if begins(tail, from) {
            out.append(to);
            proof {
                assert(rest.skip(f@.len() as int) =~= s@.skip(i + f@.len()));
                let more = replaced(s@.skip(i + f@.len()), from@, to@);
                assert(before + (to@ + more) =~= out@ + more);
            }
            i += f.len();
        } else {
            out.push(s[i]);
            proof {
                assert(rest[0] == s@[i as int]);
                assert(rest.drop_first() =~= s@.skip(i + 1));
                let more = replaced(s@.skip(i + 1), from@, to@);
                assert(before + (seq![rest[0]] + more) =~= out@ + more);
            }
            i += 1;
        }
    }
    assert(s@.skip(i as int) =~= Seq::empty());
    assert(out@ + Seq::<char>::empty() =~= out@);
    out
}

/// A word of a command with the directories of the toolchain put in.
pub open spec fn with_directories(word: Seq<char>, toolchain: Seq<char>, home: Seq<char>) -> Seq<char> {
    replaced(replaced(word, "$MOON_TOOLCHAIN_ROOT"@, toolchain), "$MOON_HOME"@, home)
}

/// The words of a command with the directories of the toolchain put in.
pub fn expand_words(words: &Vec<String>, toolchain_root: &str, moon_home: &str) -> (r: Vec<String>)
    ensures
        r@.len() == words@.len(),
        forall|i: int|
            0 <= i < r@.len() ==> (#[trigger] r@[i])@ == with_directories(words@[i]@, toolchain_root@, moon_home@),
{
    proof {
        reveal_strlit("$MOON_TOOLCHAIN_ROOT");
        reveal_strlit("$MOON_HOME");
        assert("$MOON_TOOLCHAIN_ROOT"@.len() == 20 && "$MOON_HOME"@.len() == 10);
    }
    let mut r: Vec<String> = Vec::new();
    for i in 0..words.len()
        invariant
            "$MOON_TOOLCHAIN_ROOT"@.len() == 20,
            "$MOON_HOME"@.len() == 10,
            r@.len() == i,
            forall|k: int|
                0 <= k < i ==> (#[trigger] r@[k])@ == with_directories(words@[k]@, toolchain_root@, moon_home@),
    {
        let a = replace(words[i].as_str(), "$MOON_TOOLCHAIN_ROOT", toolchain_root);
        let b = replace(a.as_str(), "$MOON_HOME", moon_home);
        r.push(b);
    }
    r
}

/// Whether a flag is for the linker alone: libraries and where they are, what it is told
/// directly, how the binary is loaded, and what it leaves out.
pub open spec fn is_link_flag(a: Seq<char>) -> bool {
    ||| starts(a, "-l"@)
    ||| starts(a, "-L"@)
    ||| starts(a, "-Wl,"@)
    ||| a == "-rdynamic"@
    ||| a == "-shared"@
    ||| a == "-static"@
    ||| a == "-pie"@
    ||| a == "-no-pie"@
    ||| a == "-s"@
    ||| a == "-nostdlib"@
    ||| a == "-nodefaultlibs"@
    ||| a == "-nostartfiles"@
    ||| starts(a, "-fuse-ld="@)
    ||| starts(a, "-static-"@)
}

/// Whether a flag is followed by a word that goes with it and is for the linker alone.
pub open spec fn takes_link_word(a: Seq<char>) -> bool {
    a == "-Xlinker"@ || a == "-framework"@ || a == "-z"@ || a == "-u"@ || a == "-T"@
}

/// Whether a word of a compiler command is a flag that a compilation without linking takes.
pub open spec fn is_compile_flag(a: Seq<char>) -> bool {
    &&& starts(a, "-"@)
    &&& a != "-c"@
    &&& !is_link_flag(a)
    &&& !ends(a, ".c"@)
    &&& !ends(a, ".o"@)
    &&& !ends(a, ".a"@)
    &&& !ends(a, ".dylib"@)
    &&& !ends(a, ".so"@)
}

/// The flags among words. What `-o` or a flag of the linker names goes with it.
pub open spec fn compile_flags(words: Seq<Seq<char>>) -> Seq<Seq<char>>
    decreases words.len(),
{
    if words.len() == 0 {
        Seq::empty()
    } else if words[0] == "-o"@ || takes_link_word(words[0]) {
        if words.len() == 1 {
            Seq::empty()
        } else {
            compile_flags(words.skip(2))
        }
    } else {
        (if is_compile_flag(words[0]) {
            seq![words[0]]
        } else {
            Seq::empty()
        }) + compile_flags(words.drop_first())
    }
}

fn link_flag(a: &str) -> (r: bool)
    ensures
        r == is_link_flag(a@),
{
    let s = chars_of(a);
    let s = s.as_slice();
    begins(s, "-l") || begins(s, "-L") || begins(s, "-Wl,") || a.eq("-rdynamic") || a.eq("-shared") || a.eq("-static")
        || a.eq("-pie") || a.eq("-no-pie") || a.eq("-s") || a.eq("-nostdlib") || a.eq("-nodefaultlibs") || a.eq(
        "-nostartfiles",
    ) || begins(s, "-fuse-ld=") || begins(s, "-static-")
}

fn link_word_follows(a: &str) -> (r: bool)
    ensures
        r == takes_link_word(a@),
{
    a.eq("-Xlinker") || a.eq("-framework") || a.eq("-z") || a.eq("-u") || a.eq("-T")
}

fn compile_flag(a: &str) -> (r: bool)
    ensures
        r == is_compile_flag(a@),
{
    let s = chars_of(a);
    let s = s.as_slice();
    begins(s, "-") && !is_text(s, "-c") && !link_flag(a) && !finishes(s, ".c") && !finishes(s, ".o") && !finishes(
        s,
        ".a",
    ) && !finishes(s, ".dylib") && !finishes(s, ".so")
}

/// The flags of a compiler command, without its inputs, its output and what is for the
/// linker alone. The first word is the compiler.
pub fn extract_compile_flags(argv: &Vec<String>) -> (r: Vec<String>)
    ensures
        texts(r@) == if argv@.len() == 0 {
            Seq::empty()
        } else {
            compile_flags(texts(argv@).drop_first())
        },
{
    let ghost all = texts(argv@);
    let mut out: Vec<String> = Vec::new();
    let mut i: usize = 1;
    if argv.len() == 0 {
        assert(texts(out@) =~= Seq::<Seq<char>>::empty());
        return out;
    }
    assert(all.skip(1) =~= all.drop_first());
    assert(texts(out@) + compile_flags(all.skip(1)) =~= compile_flags(all.drop_first()));
    while i < argv.len()
        invariant
            1 <= i <= argv@.len(),
            all == texts(argv@),
            compile_flags(all.drop_first()) == texts(out@) + compile_flags(all.skip(i as int)),
        decreases argv@.len() - i,
    {
        let ghost before = texts(out@);
        let ghost rest = all.skip(i as int);
        assert(rest[0] == argv@[i as int]@);
        assert(rest.drop_first() =~= all.skip(i + 1));
        if argv[i].as_str().eq("-o") || link_word_follows(argv[i].as_str()) {
            if argv.len() - i < 2 {
                assert(before + Seq::<Seq<char>>::empty() =~= before);
                return out;
            }
            assert(rest.skip(2) =~= all.skip(i + 2));
            i += 2;
        } else {
            if compile_flag(argv[i].as_str()) {
                out.push(argv[i].clone());
                assert(texts(out@) =~= before.push(rest[0]));
                assert(before + (seq![rest[0]] + compile_flags(all.skip(i + 1))) =~= texts(out@) + compile_flags(
                    all.skip(i + 1),
                ));
            } else {
                assert(Seq::<Seq<char>>::empty() + compile_flags(all.skip(i + 1)) =~= compile_flags(all.skip(i + 1)));
            }
            i += 1;
        }
    }
    assert(all.skip(i as int) =~= Seq::empty());
    assert(texts(out@) + Seq::<Seq<char>>::empty() =~= texts(out@));
    out
}

/// The files of a rebuild.
#[derive(Debug)]
pub struct Relink {
    /// The generated source and its file name.
    pub original_c: String,
    pub original_c_name: String,
    /// The source that takes its place.
    pub patched_c: String,
    /// The binary and its file name.
    pub original_exe: String,
    pub original_exe_name: String,
    /// The binary that is made instead.
    pub memprof_exe: String,
    /// The compiled hook.
    pub hook_o: String,
}

/// Whether a word names a file: its path, its bare name, or a path that ends in its name.
pub open spec fn names_file(word: Seq<char>, path: Seq<char>, name: Seq<char>) -> bool {
    word == path || word == name || ends(word, "/"@ + name)
}

/// The words of a compiler command with the source and the binary replaced. `None` stands
/// for an `-o` at the end.
pub open spec fn relinked(words: Seq<Seq<char>>, f: Relink) -> Option<Seq<Seq<char>>>
    decreases words.len(),
{
    if words.len() == 0 {
        Some(Seq::empty())
    } else if words[0] == "-o"@ {
        if words.len() == 1 {
            None
        } else {
            match relinked(words.skip(2), f) {
                Some(rest) => Some(
                    seq![
                        "-o"@,
                        if names_file(words[1], f.original_exe@, f.original_exe_name@) {
                            f.memprof_exe@
                        } else {
                            words[1]
                        },
                    ] + rest,
                ),
                None => None,
            }
        }
    } else {
        match relinked(words.drop_first(), f) {
            Some(rest) => Some(
                seq![
                    if names_file(words[0], f.original_c@, f.original_c_name@) {
                        f.patched_c@
                    } else {
                        words[0]
                    },
                ] + rest,
            ),
            None => None,
        }
    }
}

/// What is put behind the words: the hook and, where the binary is an ELF file, what makes
/// its symbols visible.
pub open spec fn link_tail(hook_o: Seq<char>, elf: bool) -> Seq<Seq<char>> {
    if elf {
        seq![hook_o, "-rdynamic"@, "-ldl"@, "-lpthread"@]
    } else {
        seq![hook_o]
    }
}

fn is_file(word: &str, path: &str, name: &str) -> (r: bool)
    ensures
        r == names_file(word@, path@, name@),
{
    let w = chars_of(word);
    let mut tail = "/".to_owned();
    tail.append(name);
    word.eq(path) || word.eq(name) || finishes(w.as_slice(), tail.as_str())
}

/// The compiler command that makes a binary with the hook in it. `None` stands for a
/// command that ends with `-o`.
pub fn rebuild_cc_argv(cc_argv: &Vec<String>, files: &Relink, elf: bool) -> (r: Option<Vec<String>>)
    ensures
        match r {
            Some(out) => relinked(texts(cc_argv@), *files) matches Some(words) && texts(out@) == words + link_tail(
                files.hook_o@,
                elf,
            ),
            None => relinked(texts(cc_argv@), *files) is None,
        },
{
    let ghost all = texts(cc_argv@);
    let mut out: Vec<String> = Vec::new();
    let mut i: usize = 0;
    proof {
        assert(all.skip(0) =~= all);
        if let Some(w) = relinked(all, *files) {
            assert(texts(out@) + w =~= w);
        }
    }
    while i < cc_argv.len()
        invariant
            i <= cc_argv@.len(),
            all == texts(cc_argv@),
            match relinked(all.skip(i as int), *files) {
                Some(w) => relinked(all, *files) == Some(texts(out@) + w),
                None => relinked(all, *files) is None,
            },
        decreases cc_argv@.len() - i,
    {
        let ghost before = texts(out@);
        let ghost rest = all.skip(i as int);
        assert(rest[0] == cc_argv@[i as int]@);
        assert(rest.drop_first() =~= all.skip(i + 1));
        if cc_argv[i].as_str().eq("-o") {
            if cc_argv.len() - i < 2 {
                return None;
            }
            assert(rest[1] == cc_argv@[i + 1]@);
            assert(rest.skip(2) =~= all.skip(i + 2));
            out.push(cc_argv[i].clone());
            let named: bool = is_file(
                cc_argv[i + 1].as_str(),
                files.original_exe.as_str(),
                files.original_exe_name.as_str(),
            );
            let next: String = if named {
                files.memprof_exe.clone()
            } else {
                cc_argv[i + 1].clone()
            };
            let ghost n = next@;
            out.push(next);
            proof {
                assert(texts(out@) =~= before + seq!["-o"@, n]);
                if let Some(w) = relinked(all.skip(i + 2), *files) {
                    assert(before + (seq!["-o"@, n] + w) =~= texts(out@) + w);
                }
            }
            i += 2;
        } else {
            let named: bool = is_file(
                cc_argv[i].as_str(),
                files.original_c.as_str(),
                files.original_c_name.as_str(),
            );
            let next: String = if named {
                files.patched_c.clone()
            } else {
                cc_argv[i].clone()
            };
            let ghost n = next@;
            out.push(next);
            proof {
                assert(texts(out@) =~= before + seq![n]);
                if let Some(w) = relinked(all.skip(i + 1), *files) {
                    assert(before + (seq![n] + w) =~= texts(out@) + w);
                }
            }
            i += 1;
        }
    }
    let ghost words = texts(out@);
    proof {
        assert(all.skip(i as int) =~= Seq::empty());
        assert(words + Seq::<Seq<char>>::empty() =~= words);
    }
    out.push(files.hook_o.clone());
    if elf {
        out.push("-rdynamic".to_owned());
        out.push("-ldl".to_owned());
        out.push("-lpthread".to_owned());
    }
    assert(texts(out@) =~= words + link_tail(files.hook_o@, elf));
    Some(out)
}

/// Where the block that is open at depth `depth` ends in `s`: behind its closing brace.
pub open spec fn block_end(s: Seq<char>, depth: nat) -> Option<int>
    decreases s.len(),
{
    if s.len() == 0 {
        None
    } else {
        let d = if s[0] == '{' {
            depth as int + 1
        } else if s[0] == '}' {
            depth as int - 1
        } else {
            depth as int
        };
        if d <= 0 {
            Some(1)
        } else {
            match block_end(s.drop_first(), d as nat) {
                Some(i) => Some(i + 1),
                None => None,
            }
        }
    }
}

/// The head of the allocator in generated source.
pub open spec fn malloc_head() -> Seq<char> {
    "static void *moonbit_malloc_inlined(size_t size) {"@
}

/// The allocator that tells the hook of every allocation.
pub open spec fn hooked_malloc() -> Seq<char> {
    "static void *moonbit_malloc_inlined(size_t size) {\n  extern void __moon_pprof_alloc_hook(size_t);\n  __moon_pprof_alloc_hook(size);\n  struct moonbit_object *ptr = (struct moonbit_object *)libc_malloc(\n        sizeof(struct moonbit_object) + size);\n  ptr->rc = 1;\n  return ptr + 1;\n}"@
}

/// Why generated source cannot be patched.
#[derive(Clone, Copy, Debug, PartialEq, Eq, Structural)]
pub enum PatchError {
    /// The allocator is not in it.
    NoMalloc,
    /// The braces of the allocator do not match.
    Unbalanced,
}

/// The source with its allocator replaced. Everything around it stays as it is.
pub open spec fn patched(src: Seq<char>) -> Result<Seq<char>, PatchError> {
    match found_at(src, malloc_head()) {
        None => Err(PatchError::NoMalloc),
        Some(start) => {
            let body = start + malloc_head().len();
            match block_end(src.skip(body), 1) {
                None => Err(PatchError::Unbalanced),
                Some(n) => Ok(src.take(start) + hooked_malloc() + src.skip(body + n)),
            }
        },
    }
}

fn end_of_block(s: &[char]) -> (r: Option<usize>)
    ensures
        match r {
            Some(n) => block_end(s@, 1) == Some(n as int) && n <= s@.len(),
            None => block_end(s@, 1) is None,
        },
{
    let all: usize = s.len();
    let mut depth: u128 = 1;
    assert(s@.skip(0) =~= s@);
    for i in 0..all
        invariant
            all == s@.len(),
            1 <= depth <= i + 1,
            match block_end(s@.skip(i as int), depth as nat) {
                Some(n) => block_end(s@, 1) == Some(n + i),
                None => block_end(s@, 1) is None,
            },
    {
        proof {
            assert(s@.skip(i as int)[0] == s@[i as int]);
            assert(s@.skip(i as int).drop_first() =~= s@.skip(i + 1));
        }
        if s[i] == '{' {
            depth += 1;
        } else if s[i] == '}' {
            depth -= 1;
            if depth == 0 {
                return Some(i + 1);
            }
        }
    }
    None
}

/// Replaces the allocator of generated source with one that tells a hook of every
/// allocation before it is made.
pub fn patch_moonbit_malloc(src: &str) -> (r: Result<String, PatchError>)
    ensures
        match r {
            Ok(out) => patched(src@) == Ok::<Seq<char>, PatchError>(out@),
            Err(e) => patched(src@) == Err::<Seq<char>, PatchError>(e),
        },
{
    let s = chars_of(src);
    let head = chars_of("static void *moonbit_malloc_inlined(size_t size) {");
    let start: usize = match find(s.as_slice(), head.as_slice()) {
        Some(i) => i,
        None => {
            return Err(PatchError::NoMalloc);
        },
    };
    assert(head@.len() <= s@.len() - start);
    let all: usize = s.len();
    let body: usize = start + head.len();
    let inside = slice_subrange(s.as_slice(), body, all);
    assert(inside@ =~= src@.skip(body as int));
    let n: usize = match end_of_block(inside) {
        Some(n) => n,
        None => {
            return Err(PatchError::Unbalanced);
        },
    };
    let mut out = String::new();
    let before = slice_subrange(s.as_slice(), 0, start);
    let after = slice_subrange(s.as_slice(), body + n, s.len());
    append_chars(&mut out, before);
    out.append(
        "static void *moonbit_malloc_inlined(size_t size) {\n  extern void __moon_pprof_alloc_hook(size_t);\n  __moon_pprof_alloc_hook(size);\n  struct moonbit_object *ptr = (struct moonbit_object *)libc_malloc(\n        sizeof(struct moonbit_object) + size);\n  ptr->rc = 1;\n  return ptr + 1;\n}",
    );
    append_chars(&mut out, after);
    proof {
        assert(before@ =~= src@.take(start as int));
        assert(after@ =~= src@.skip(body + n));
        assert(out@ =~= src@.take(start as int) + hooked_malloc() + src@.skip(body + n));
    }
    Ok(out)
}

} // verus!

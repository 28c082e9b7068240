//! Command lines and file names.
use vstd::prelude::*;
use vstd::slice::slice_subrange;
use vstd::string::StringExecFns;
use crate::native::{begins, starts};
use crate::relink::{ends, finishes};
use crate::text::{append_chars, chars_of};

verus! {

/// An argument with a long option under two dashes. An option of one ASCII letter stays
/// under one.
pub open spec fn normalized(a: Seq<char>) -> Seq<char> {
    if starts(a, "--"@) || !starts(a, "-"@) || a.len() == 1 || (a.len() == 2 && a[1] < '\u{80}') {
        a
    } else {
        "-"@ + a
    }
}

/// Arguments with long options under two dashes.
pub fn normalize_argv(argv: Vec<String>) -> (r: Vec<String>)
    ensures
        r@.len() == argv@.len(),
        forall|i: int| 0 <= i < r@.len() ==> (#[trigger] r@[i])@ == normalized(argv@[i]@),
{
    let mut r: Vec<String> = Vec::new();
    for i in 0..argv.len()
        invariant
            r@.len() == i,
            forall|k: int| 0 <= k < i ==> (#[trigger] r@[k])@ == normalized(argv@[k]@),
    {
        let a = chars_of(argv[i].as_str());
        let s = a.as_slice();
        if begins(s, "--") || !begins(s, "-") || a.len() == 1 || (a.len() == 2 && a[1] < '\u{80}') {
            r.push(argv[i].clone());
        } else {
            let mut out = "-".to_owned();
            append_chars(&mut out, s);
            r.push(out);
        }
    }
    r
}

/// Arguments that are normalized once are not changed again.
pub proof fn law_normalized_once(a: Seq<char>)
    ensures
        normalized(normalized(a)) == normalized(a),
{
    reveal_strlit("-");
    reveal_strlit("--");
    if normalized(a) != a {
        let b = normalized(a);
        assert("-"@.len() == 1 && "--"@.len() == 2);
        assert(a.take(1) == "-"@);
        assert(a[0] == a.take(1)[0]);
        assert(b.take(2) =~= "--"@);
    }
}

/// Where the symbols of a samply profile are: beside it, under its name without `.gz`.
pub open spec fn syms_path(input: Seq<char>) -> Seq<char> {
    (if ends(input, ".gz"@) {
        input.take(input.len() - 3)
    } else {
        input
    }) + ".syms.json"@
}

/// Where the symbols of a samply profile are.
pub fn default_syms_path(input: &str) -> (r: String)
    ensures
        r@ == syms_path(input@),
{
    proof {
        reveal_strlit(".gz");
        assert(".gz"@.len() == 3);
    }
    let s = chars_of(input);
    let n: usize = if finishes(s.as_slice(), ".gz") {
        s.len() - 3
    } else {
        s.len()
    };
    let mut out = String::new();
    let front = slice_subrange(s.as_slice(), 0, n);
    append_chars(&mut out, front);
    out.append(".syms.json");
    assert(front@ =~= s@.take(n as int));
    assert(s@.take(s@.len() as int) =~= s@);
    assert(out@ =~= syms_path(input@));
    out
}

} // verus!

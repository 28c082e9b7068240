//! Tests on names: regular expressions and lists.
use vstd::prelude::*;
use crate::proto::texts;

verus! {

/// A compiled expression of the `regex` crate.
#[verifier::external_type_specification]
#[verifier::external_body]
pub struct ExRegex(regex::Regex);

/// What is wrong with a regular expression.
#[verifier::external_type_specification]
#[verifier::external_body]
pub struct ExRegexError(regex::Error);

/// Whether a text is a regular expression that the `regex` crate takes.
pub uninterp spec fn regex_valid(pattern: Seq<char>) -> bool;

/// Whether a regular expression matches somewhere in a text.
pub uninterp spec fn regex_matches(pattern: Seq<char>, text: Seq<char>) -> bool;

/// What the first group of a regular expression holds where the expression first matches.
pub uninterp spec fn regex_group(pattern: Seq<char>, text: Seq<char>) -> Option<Seq<char>>;

/// A test on names.
pub trait NameTest: Sized {
    /// Whether the test holds of a name.
    spec fn holds(&self, name: Seq<char>) -> bool;

    /// Whether the test holds of a name.
    fn test(&self, name: &str) -> (r: bool)
        ensures
            r == self.holds(name@),
    ;
}

/// A regular expression. Its fields are only ever set together, by [`Pattern::compile`].
pub struct Pattern {
    source: String,
    regex: regex::Regex,
}

impl Pattern {
    /// The expression as text.
    pub closed spec fn text(&self) -> Seq<char> {
        self.source@
    }

    /// `regex::Regex::new`: succeeds exactly on the texts that are valid expressions within
    /// the crate's size limit, and keeps the text beside what it gives back.
    #[verifier::external_body]
    fn compile_source(source: &str) -> (r: Result<Pattern, regex::Error>)
        ensures
            match r {
                Ok(p) => regex_valid(source@) && p.text() == source@,
                Err(_) => !regex_valid(source@),
            },
    {
        let regex = regex::Regex::new(source)?;
        Ok(Pattern { source: source.to_owned(), regex })
    }

    /// Compiles an expression. `None` stands for a text that is none.
    pub fn compile(source: &str) -> (r: Option<Pattern>)
        ensures
            match r {
                Some(p) => regex_valid(source@) && p.text() == source@,
                None => !regex_valid(source@),
            },
    {
        match Pattern::compile_source(source) {
            Ok(p) => Some(p),
            Err(_) => None,
        }
    }

    /// `regex::Regex::is_match`: whether the expression matches somewhere in the text.
    #[verifier::external_body]
    pub(crate) fn is_match(&self, text: &str) -> (r: bool)
        ensures
            r == regex_matches(self.text(), text@),
    {
        self.regex.is_match(text)
    }

    /// `regex::Regex::captures`: what the first group holds at the first match.
    #[verifier::external_body]
    pub(crate) fn first_group(&self, text: &str) -> (r: Option<String>)
        ensures
            regex_group(self.text(), text@) == match r {
                Some(s) => Some(s@),
                None => None,
            },
    {
        Some(self.regex.captures(text)?.get(1)?.as_str().to_owned())
    }
}

impl NameTest for Pattern {
    open spec fn holds(&self, name: Seq<char>) -> bool {
        regex_matches(self.text(), name)
    }

    fn test(&self, name: &str) -> (r: bool) {
        self.is_match(name)
    }
}

/// A test that holds where an expression matches, and nowhere without one.
pub struct OptionalPattern {
    pub pattern: Option<Pattern>,
}

impl NameTest for OptionalPattern {
    open spec fn holds(&self, name: Seq<char>) -> bool {
        self.pattern matches Some(p) && regex_matches(p.text(), name)
    }

    fn test(&self, name: &str) -> (r: bool) {
        match &self.pattern {
            Some(p) => p.is_match(name),
            None => false,
        }
    }
}

/// A test that holds of the listed names.
pub struct Names {
    pub names: Vec<String>,
}

impl NameTest for Names {
    open spec fn holds(&self, name: Seq<char>) -> bool {
        texts(self.names@).contains(name)
    }

    fn test(&self, name: &str) -> (r: bool) {
        for i in 0..self.names.len()
            invariant
                forall|k: int| 0 <= k < i ==> (#[trigger] texts(self.names@)[k]) != name@,
        {
            if self.names[i].as_str().eq(name) {
                assert(texts(self.names@)[i as int] == name@);
                return true;
            }
        }
        false
    }
}

/// Memory-management symbols of MoonBit's runtime.
pub fn default_mem_pattern() -> (r: &'static str)
    ensures
        r@ == default_mem_text(),
{
    "^(moonbit\\.(incref|decref|gc\\.malloc|gc\\.free|malloc|free|make_array_header|get_tag|array_length|check_range|drop_object)|tlsf/.+|moonbit_drop_object|libc_(malloc|free)|moonbit_malloc|moonbit_decref|moonbit_incref|_(?:malloc|free)|libsystem_malloc\\..*)$"
}

/// Memory-management symbols of MoonBit's runtime, as a regular expression.
pub open spec fn default_mem_text() -> Seq<char> {
    "^(moonbit\\.(incref|decref|gc\\.malloc|gc\\.free|malloc|free|make_array_header|get_tag|array_length|check_range|drop_object)|tlsf/.+|moonbit_drop_object|libc_(malloc|free)|moonbit_malloc|moonbit_decref|moonbit_incref|_(?:malloc|free)|libsystem_malloc\\..*)$"@
}

/// The expression of the memory-management rollup: the one given, else the one of the
/// environment, else the default. `None` stands for one that cannot be compiled.
pub fn mem_mgmt_re(given: Option<String>, environment: Option<String>) -> (r: Option<Pattern>)
    ensures
        ({
            let text = match given {
                Some(s) => s@,
                None => match environment {
                    Some(s) => s@,
                    None => default_mem_text(),
                },
            };
            match r {
                Some(p) => regex_valid(text) && p.text() == text,
                None => !regex_valid(text),
            }
        }),
{
    let text: String = match given {
        Some(s) => s,
        None => match environment {
            Some(s) => s,
            None => default_mem_pattern().to_owned(),
        },
    };
    Pattern::compile(text.as_str())
}

} // verus!

//! Regular expressions of the rules and of the archive filters, compiled by
//! the `regex` crate. A `CompiledRegex` keeps the text it was compiled from,
//! so that what a search answers can be named as a function of that text and
//! of the haystack.
use vstd::prelude::*;

verus! {

#[verifier::external_type_specification]
#[verifier::external_body]
pub struct ExRegex(regex::Regex);

#[verifier::external_type_specification]
#[verifier::external_body]
pub struct ExRegexError(regex::Error);

/// `Clone` of `regex::Regex` (derived in the regex crate), so that rules and
/// filters holding a compiled regex can be cloned. Nothing is claimed of the
/// copy: Verus sees nothing inside a `Regex`.
pub assume_specification[ <regex::Regex as Clone>::clone ](r: &regex::Regex) -> regex::Regex;

/// Whether `regex::Regex::new` accepts the pattern.
pub uninterp spec fn regex_compiles(pattern: Seq<char>) -> bool;

/// What `regex::Regex::is_match` answers for the regex compiled from `pattern`.
pub uninterp spec fn regex_is_match(pattern: Seq<char>, haystack: Seq<char>) -> bool;

/// The names of the capture groups of the regex compiled from `pattern`,
/// group by group (`None` for an unnamed group), as `Regex::capture_names` gives them.
pub uninterp spec fn regex_capture_names(pattern: Seq<char>) -> Seq<Option<Seq<char>>>;

/// The text of each capture group of the first match (`None` for a group that
/// took no part), as `Regex::captures` followed by `Captures::iter` gives them.
pub uninterp spec fn regex_captures(pattern: Seq<char>, haystack: Seq<char>) -> Option<
    Seq<Option<Seq<char>>>,
>;

/// The views of a sequence of optional strings.
pub open spec fn opt_strs_view(v: Seq<Option<String>>) -> Seq<Option<Seq<char>>> {
    v.map_values(|o: Option<String>| opt_str_view(o))
}

pub open spec fn opt_str_view(o: Option<String>) -> Option<Seq<char>> {
    match o {
        Some(s) => Some(s@),
        None => None,
    }
}

/// A regex together with the pattern text it was compiled from. The fields
/// are private and `new` is the only constructor, so `regex` is always the
/// compilation of `source`.
#[derive(Debug, Clone)]
pub struct CompiledRegex {
    source: String,
    regex: regex::Regex,
}

impl CompiledRegex {
    /// The pattern text this regex was compiled from.
    pub closed spec fn pattern(&self) -> Seq<char> {
        self.source@
    }

    /// Compiles `pattern` with `regex::Regex::new`. Claims: the result is `Ok`
    /// exactly when the crate accepts the pattern (named `regex_compiles`), and an
    /// `Ok` value remembers `pattern`.
    #[verifier::external_body]
    pub(crate) fn new(pattern: &str) -> (r: Result<CompiledRegex, regex::Error>)
        ensures
            r.is_ok() == regex_compiles(pattern@),
            r matches Ok(c) ==> c.pattern() == pattern@,
    {
        regex::Regex::new(pattern).map(|regex| CompiledRegex { source: pattern.to_string(), regex })
    }

    /// The pattern text, as a string slice.
    pub fn as_str(&self) -> (s: &str)
        ensures
            s@ == self.pattern(),
    {
        self.source.as_str()
    }

    /// `regex::Regex::is_match`. Claims: the answer is the named `regex_is_match`
    /// of the pattern and the haystack.
    #[verifier::external_body]
    pub(crate) fn is_match(&self, haystack: &str) -> (found: bool)
        ensures
            found == regex_is_match(self.pattern(), haystack@),
    {
        self.regex.is_match(haystack)
    }

    /// `regex::Regex::capture_names`, each name turned into an owned string.
    /// Claims: the list is the named `regex_capture_names` of the pattern.
    #[verifier::external_body]
    pub(crate) fn capture_names(&self) -> (names: Vec<Option<String>>)
        ensures
            opt_strs_view(names@) == regex_capture_names(self.pattern()),
    {
        self.regex.capture_names().map(|n| n.map(|s| s.to_string())).collect()
    }

    /// `regex::Regex::captures`, the groups of the match read with
    /// `Captures::iter` and turned into owned strings. Claims: the result is the
    /// named `regex_captures` of the pattern and the haystack, and it is `Some`
    /// exactly when `is_match` holds (the crate documents both as "a match exists").
    #[verifier::external_body]
    pub(crate) fn captures(&self, haystack: &str) -> (groups: Option<Vec<Option<String>>>)
        ensures
            groups.is_some() == regex_is_match(self.pattern(), haystack@),
            groups matches Some(g) ==> regex_captures(self.pattern(), haystack@) == Some(
                opt_strs_view(g@),
            ),
            groups is None ==> regex_captures(self.pattern(), haystack@) is None,
    {
        self.regex.captures(haystack).map(
            |c| c.iter().map(|m| m.map(|m| m.as_str().to_string())).collect(),
        )
    }
}

} // verus!

//! Regular-expression matching, supplied by the `regex` crate behind a
//! trusted boundary. A compiled pattern remembers the pattern text it was
//! built from, so that contracts can speak of matching as a function of the
//! pattern text and the searched text alone.

use vstd::prelude::*;

verus! {

#[verifier::external_type_specification]
#[verifier::external_body]
pub struct ExRegex(regex::Regex);

/// Whether the regular expression written as `pattern` matches anywhere in
/// `text`. Matching is a function of the two texts alone.
pub uninterp spec fn pattern_matches(pattern: Seq<char>, text: Seq<char>) -> bool;

/// Whether the regex crate accepts the pattern text; a function of the
/// pattern text alone.
pub uninterp spec fn pattern_compiles(pattern: Seq<char>) -> bool;

/// A compiled search pattern, keeping the pattern text it was built from.
pub struct SearchPattern {
    re: regex::Regex,
    pat: String,
}

impl SearchPattern {
    /// The pattern text this matcher was compiled from.
    pub closed spec fn pattern(&self) -> Seq<char> {
        self.pat@
    }

    /// Relies on `regex::Regex::new`: compiles the pattern text, or reports
    /// the crate's refusal of it as an absent value; whether a pattern text
    /// is accepted depends on that text alone.
    #[verifier::external_body]
    pub fn compile(pattern: &str) -> (r: Option<SearchPattern>)
        ensures
            r is Some <==> pattern_compiles(pattern@),
            r matches Some(sp) ==> sp.pattern() == pattern@,
    {
        match regex::Regex::new(pattern) {
            Ok(re) => Some(SearchPattern { re, pat: pattern.to_owned() }),
            Err(_) => None,
        }
    }

    /// Relies on `regex::Regex::is_match`: true if and only if there is a
    /// match for the pattern anywhere in `text`.
    #[verifier::external_body]
    pub(crate) fn is_match(&self, text: &str) -> (r: bool)
        ensures
            r == pattern_matches(self.pattern(), text@),
    {
        self.re.is_match(text)
    }
}

} // verus!

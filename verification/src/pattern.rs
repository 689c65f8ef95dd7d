use regex::Regex;
use vstd::prelude::*;

verus! {

/// A compiled regular expression of the `regex` crate, carried as an opaque value.
#[verifier::external_type_specification]
#[verifier::external_body]
pub struct ExRegex(regex::Regex);

/// The pattern of a regex that `Regex::new` compiled, which is the text that
/// `Regex::as_str` reports for it; `None` for a regex that was configured in any
/// other way, of which nothing is claimed here.
pub uninterp spec fn regex_source(re: Regex) -> Option<Seq<char>>;

/// Whether the regex that `Regex::new` compiles from `pattern` finds a match
/// anywhere in `haystack`, as `Regex::is_match` decides it.
pub uninterp spec fn regex_matches(pattern: Seq<char>, haystack: Seq<char>) -> bool;

/// Matches one Unicode whitespace character.
pub const WHITESPACE_PATTERN: &'static str = "\\s";

/// Matches a whole token of the shape `<...>`, with optional whitespace around it.
pub const TAG_PATTERN: &'static str = "^\\s*<[^>]+>\\s*$";

/// Matches one Unicode word character, `#` or `@`.
pub const WORD_PATTERN: &'static str = "[\\w\\#@]";

/// The patterns this library compiles. Each is valid syntax for the `regex` crate.
pub open spec fn is_library_pattern(pattern: Seq<char>) -> bool {
    pattern == WHITESPACE_PATTERN@ || pattern == TAG_PATTERN@ || pattern == WORD_PATTERN@
}

/// `Regex::new` on one of the library's patterns. The call fails only on a pattern
/// that does not parse or that compiles to an oversized program, which none of the
/// library's patterns does; the result is the regex of that pattern, with the
/// default options.
#[verifier::external_body]
pub(crate) fn compile(pattern: &str) -> (re: Regex)
    requires
        is_library_pattern(pattern@),
    ensures
        regex_source(re) == Some(pattern@),
{
    Regex::new(pattern).unwrap()
}

/// `Regex::is_match`: for a regex that `Regex::new` compiled, the answer depends
/// on the pattern and the haystack alone.
#[verifier::external_body]
pub(crate) fn is_match(re: &Regex, haystack: &str) -> (found: bool)
    ensures
        regex_source(*re) matches Some(pattern) ==> found == regex_matches(pattern, haystack@),
{
    re.is_match(haystack)
}

} // verus!

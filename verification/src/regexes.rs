//! The boundary to the regex engine. What is stated here of the engine is
//! taken on trust: it is what the engine's documentation says, and nothing
//! in this crate proves it.

use crate::errors::ParseError;
use vstd::prelude::*;

verus! {

/// `regex::Regex`, a compiled pattern. Nothing is seen of what is inside.
#[verifier::external_type_specification]
#[verifier::external_body]
pub struct ExRegex(regex::Regex);

/// `regex::Error`, what the engine says of a pattern that it cannot
/// compile. Nothing is seen of what is inside.
#[verifier::external_type_specification]
#[verifier::external_body]
pub struct ExRegexError(regex::Error);

/// The pattern text from which a compiled regex was made, which is what
/// `regex::Regex::as_str` gives.
pub uninterp spec fn pattern_of(re: regex::Regex) -> Seq<char>;

/// Every match of `pattern` in `haystack`, in the order in which a search
/// from the start finds them. A match is a row of byte spans into the
/// haystack, start and end: first the whole match, then one entry for each
/// capture group of the pattern, absent where the group took no part.
pub uninterp spec fn all_captures(pattern: Seq<char>, haystack: Seq<char>) -> Seq<
    Seq<Option<(usize, usize)>>,
>;

/// The rows of spans as sequences.
pub open spec fn span_rows(v: Seq<Vec<Option<(usize, usize)>>>) -> Seq<
    Seq<Option<(usize, usize)>>,
> {
    v.map_values(|r: Vec<Option<(usize, usize)>>| r@)
}

/// `regex::Regex::new` compiles a pattern. It fails on a pattern that is
/// not valid or too large; the regex it returns otherwise remembers the
/// pattern text it was given.
pub assume_specification[ regex::Regex::new ](re: &str) -> (r: Result<regex::Regex, regex::Error>)
    ensures
        r matches Ok(x) ==> pattern_of(x) == re@,
;

/// `regex::Regex::captures_iter` walks the successive matches of the regex
/// in the haystack; each is read off group by group with `Captures::get`,
/// `Match::start` and `Match::end`. What comes back depends on the pattern
/// and the haystack alone.
#[verifier::external_body]
pub(crate) fn find_captures(re: &regex::Regex, haystack: &str) -> (r: Vec<Vec<Option<(usize, usize)>>>)
    ensures
        span_rows(r@) == all_captures(pattern_of(*re), haystack@),
{
    re.captures_iter(haystack).map(
        |c| (0..c.len()).map(|i| c.get(i).map(|m| (m.start(), m.end()))).collect(),
    ).collect()
}

/// What `regex::Error` says of itself through `Display`.
#[verifier::external_body]
fn regex_error_text(e: &regex::Error) -> (r: String) {
    e.to_string()
}

/// Whether `pattern` matches somewhere in `haystack`.
pub uninterp spec fn matches_somewhere(pattern: Seq<char>, haystack: Seq<char>) -> bool;

/// `regex::Regex::is_match` says whether the regex has a match anywhere in
/// the haystack; that depends on the pattern and the haystack alone.
#[verifier::external_body]
pub(crate) fn regex_is_match(re: &regex::Regex, haystack: &str) -> (r: bool)
    ensures
        r == matches_somewhere(pattern_of(*re), haystack@),
{
    re.is_match(haystack)
}

/// Compiles a pattern; the error is `ParseError::Regex` with what the
/// engine said of the pattern.
pub(crate) fn compile_one(pattern: &str) -> (r: Result<regex::Regex, ParseError>)
    ensures
        r matches Ok(x) ==> pattern_of(x) == pattern@,
        r matches Err(e) ==> e is Regex,
{
    match regex::Regex::new(pattern) {
        Ok(x) => Ok(x),
        Err(e) => Err(ParseError::Regex(regex_error_text(&e))),
    }
}

} // verus!

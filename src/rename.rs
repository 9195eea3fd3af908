//! Pattern renames of file names, as requested by the file API.
use vstd::prelude::*;

verus! {

/// Whether `regex::Regex::new` accepts the pattern.
pub uninterp spec fn pattern_compiles(pattern: Seq<char>) -> bool;

/// What `regex::Regex::replacen` makes of a haystack: the first `limit` matches of
/// the pattern (all of them when `limit` is 0) replaced by the expanded replacement.
pub uninterp spec fn regex_replaced(pattern: Seq<char>, haystack: Seq<char>, limit: usize, rep: Seq<char>) -> Seq<char>;

/// Relies on `regex::Regex::new`, which fails exactly on patterns it does not accept,
/// and `regex::Regex::replacen`, whose result depends on the pattern, the haystack,
/// the limit and the replacement alone.
#[verifier::external_body]
fn replace_matches(pattern: &str, haystack: &str, limit: usize, rep: &str) -> (r: Option<String>)
    ensures
        r is Some <==> pattern_compiles(pattern@),
        r matches Some(s) ==> s@ == regex_replaced(pattern@, haystack@, limit, rep@),
{
    match regex::Regex::new(pattern) {
        Ok(re) => Some(re.replacen(haystack, limit, rep).into_owned()),
        Err(_) => None,
    }
}

/// The pattern that selects what a bulk rename replaces.
pub struct FromPattern {
    pub pattern: String,
    /// Replace every match, not only the first.
    pub replace_all: bool,
}

/// A rename request that cannot be carried out.
#[derive(Debug, Clone, Copy, PartialEq, Eq, Structural)]
pub enum RenameError {
    /// The pattern is not a valid regular expression.
    InvalidPattern,
}

/// How many matches a rename replaces: every one (0) or the first (1).
pub open spec fn match_limit(from: &FromPattern) -> usize {
    if from.replace_all { 0 } else { 1 }
}

/// The new full name of a file under a pattern rename: the matches of the pattern in
/// the old name, the first or all of them, replaced by `to_pattern`.
pub fn renamed_full_name(from: &FromPattern, full_name: &str, to_pattern: &str) -> (r: Result<String, RenameError>)
    ensures
        r is Ok <==> pattern_compiles(from.pattern@),
        r matches Ok(s) ==> s@ == regex_replaced(from.pattern@, full_name@, match_limit(from), to_pattern@),
        r matches Err(e) ==> e == RenameError::InvalidPattern,
{
    let limit: usize = if from.replace_all { 0 } else { 1 };
    match replace_matches(from.pattern.as_str(), full_name, limit, to_pattern) {
        Some(s) => Ok(s),
        None => Err(RenameError::InvalidPattern),
    }
}

} // verus!

//! Regular expressions, as the `regex` crate evaluates them.
//!
//! Nothing in this module is proved: each function here hands its arguments
//! to the `regex` crate, and its contract gives the crate's answer a name
//! that the rest of the library reasons with.

use vstd::prelude::*;
use regex::Regex;

verus! {

/// Whether `regex::Regex::new` accepts `pattern`.
pub uninterp spec fn regex_accepts(pattern: Seq<char>) -> bool;

/// Whether `regex::Regex::is_match`, asked of the expression compiled from
/// `pattern`, finds a match anywhere in `haystack`.
pub uninterp spec fn regex_is_match(pattern: Seq<char>, haystack: Seq<char>) -> bool;

/// What `regex::Regex::captures`, asked of the expression compiled from
/// `pattern`, finds in `haystack`: the text of the first capture group of the
/// leftmost match, and the part of `haystack` that follows that group.
/// `None` where nothing matches or the group took no part in the match.
pub uninterp spec fn regex_first_group(pattern: Seq<char>, haystack: Seq<char>) -> Option<
    (Seq<char>, Seq<char>),
>;

/// The texts of a capture group and of what follows it.
pub open spec fn found_texts(found: Option<(String, String)>) -> Option<(Seq<char>, Seq<char>)> {
    match found {
        Some((group, rest)) => Some((group@, rest@)),
        None => None,
    }
}

/// Compiles `pattern` with `regex::Regex::new` and searches `haystack` with
/// `regex::Regex::is_match`. The answer is `None` where the pattern is not
/// accepted, and otherwise what the search reports.
#[verifier::external_body]
pub(crate) fn pattern_is_match(pattern: &str, haystack: &str) -> (found: Option<bool>)
    ensures
        found == (if regex_accepts(pattern@) {
            Some(regex_is_match(pattern@, haystack@))
        } else {
            None::<bool>
        }),
{
    match Regex::new(pattern) {
        Ok(re) => Some(re.is_match(haystack)),
        Err(_) => None,
    }
}

/// Compiles `pattern` with `regex::Regex::new` and asks
/// `regex::Regex::captures` for the leftmost match in `haystack`. The answer
/// holds the text of the first capture group of that match and the part of
/// `haystack` after the end of the group. It is `None` where the pattern is
/// not accepted, where nothing matches, and where the group took no part in
/// the match.
#[verifier::external_body]
pub(crate) fn pattern_first_group(pattern: &str, haystack: &str) -> (found: Option<
    (String, String),
>)
    ensures
        found_texts(found) == (if regex_accepts(pattern@) {
            regex_first_group(pattern@, haystack@)
        } else {
            None::<(Seq<char>, Seq<char>)>
        }),
{
    match Regex::new(pattern) {
        Ok(re) => match re.captures(haystack).and_then(|c| c.get(1)) {
            Some(m) => Some((m.as_str().to_string(), haystack[m.end()..].to_string())),
            None => None,
        },
        Err(_) => None,
    }
}

} // verus!

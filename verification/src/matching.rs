//! Pattern matching on text, done by the `regex` crate.
//!
//! What a pattern matches in a text is not defined here: each search has a
//! name, and the functions below are believed to return what the name stands
//! for. Everything the library concludes from a search is stated over these
//! names.

use vstd::prelude::*;

verus! {

/// What `regex::Regex::is_match` answers for a pattern and a text: whether
/// the pattern matches anywhere in the text. `None` where the pattern does not
/// compile.
pub uninterp spec fn regex_is_match(pattern: Seq<char>, text: Seq<char>) -> Option<bool>;

/// What `regex::Regex::find_iter` yields for a pattern and a text: the matched
/// pieces of the text, from left to right. `None` where the pattern does not
/// compile.
pub uninterp spec fn regex_find_all(pattern: Seq<char>, text: Seq<char>) -> Option<
    Seq<Seq<char>>,
>;

/// What `regex::Regex::captures` yields for a pattern and a text: the groups
/// of the first match, the whole match at index 0, each group absent where it
/// took no part; the inner `None` where nothing matches. The outer `None`
/// where the pattern does not compile.
pub uninterp spec fn regex_captures(pattern: Seq<char>, text: Seq<char>) -> Option<
    Option<Seq<Option<Seq<char>>>>,
>;

/// What `regex::Regex::captures_iter` yields for a pattern and a text: the
/// groups of each match, from left to right. `None` where the pattern does not
/// compile.
pub uninterp spec fn regex_captures_all(pattern: Seq<char>, text: Seq<char>) -> Option<
    Seq<Seq<Option<Seq<char>>>>,
>;

/// What `str::trim` leaves of a text: the text without its leading and
/// trailing white space.
pub uninterp spec fn trimmed(text: Seq<char>) -> Seq<char>;

/// Compiles `pattern` with `regex::Regex::new` and asks `Regex::is_match`
/// about `text`. The contract claims only that the answer is a function of
/// the two strings.
#[verifier::external_body]
pub(crate) fn is_match(pattern: &str, text: &str) -> (r: Option<bool>)
    ensures
        r == regex_is_match(pattern@, text@),
{
    match regex::Regex::new(pattern) {
        Ok(re) => Some(re.is_match(text)),
        Err(_) => None,
    }
}

/// Compiles `pattern` with `regex::Regex::new` and collects the text of every
/// match that `Regex::find_iter` yields in `text`. The contract claims only
/// that the pieces are a function of the two strings.
#[verifier::external_body]
pub(crate) fn find_all(pattern: &str, text: &str) -> (r: Option<Vec<String>>)
    ensures
        r.deep_view() == regex_find_all(pattern@, text@),
{
    match regex::Regex::new(pattern) {
        Ok(re) => Some(re.find_iter(text).map(|m| m.as_str().to_string()).collect()),
        Err(_) => None,
    }
}

/// Compiles `pattern` with `regex::Regex::new` and copies out the groups of
/// the first match that `Regex::captures` finds in `text`. The contract
/// claims only that the groups are a function of the two strings.
#[verifier::external_body]
pub(crate) fn captures(pattern: &str, text: &str) -> (r: Option<Option<Vec<Option<String>>>>)
    ensures
        r.deep_view() == regex_captures(pattern@, text@),
{
    match regex::Regex::new(pattern) {
        Ok(re) => Some(
            re.captures(text).map(|c| c.iter().map(|g| g.map(|m| m.as_str().to_string())).collect()),
        ),
        Err(_) => None,
    }
}

/// Compiles `pattern` with `regex::Regex::new` and copies out the groups of
/// every match that `Regex::captures_iter` yields in `text`. The contract
/// claims only that the groups are a function of the two strings.
#[verifier::external_body]
pub(crate) fn captures_all(pattern: &str, text: &str) -> (r: Option<Vec<Vec<Option<String>>>>)
    ensures
        r.deep_view() == regex_captures_all(pattern@, text@),
{
    match regex::Regex::new(pattern) {
        Ok(re) => Some(
            re.captures_iter(text).map(
                |c| c.iter().map(|g| g.map(|m| m.as_str().to_string())).collect(),
            ).collect(),
        ),
        Err(_) => None,
    }
}

/// `str::trim`, copied into a `String`.
#[verifier::external_body]
pub(crate) fn trim(text: &str) -> (r: String)
    ensures
        r@ == trimmed(text@),
{
    text.trim().to_string()
}

} // verus!

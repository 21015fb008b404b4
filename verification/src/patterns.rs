//! The regular expressions that the detectors search with, and the calls into
//! the `regex` crate that run them. What a search finds is given a name: the
//! results depend on the pattern and the text alone.
use vstd::prelude::*;
use crate::text::occurs_in;
use vstd::string::StringSliceAdditionalSpecFns;
use vstd::utf8::is_char_boundary;

verus! {

/// Runs of at least eight base64 alphabet characters, with any `=` padding.
pub const BASE64_PATTERN: &'static str = r"[a-zA-Z0-9+/]{8,}=*";

/// URLs, case-insensitive: a scheme, `://`, and everything up to the next white space.
pub const URL_PATTERN: &'static str = r"(?i)https?://[^\s/$.?#].[^\s]*";

/// IPv4 addresses: four dot-separated groups of one to three digits, on word boundaries.
pub const IP_PATTERN: &'static str = r"(?i)\b(?:\d{1,3}\.){3}\d{1,3}\b";

/// `Array( ... )` with its contents as the first group.
pub const ARRAY_PATTERN: &'static str = r"(?i)Array\s*\(([^)]+)\)";

/// A string declaration `name = "text"`: the name as the first group, the text as the second.
pub const DECLARATION_PATTERN: &'static str = r#"(?i)(\w+)\s*=\s*"([^"]+)""#;

/// An assignment: a variable name, `=`, and the expression.
pub const ASSIGNMENT_PATTERN: &'static str = r"(?i)([a-z_][a-z0-9_]*)\s*=\s*(.+)";

/// A double-quoted string literal, its contents as the first group.
pub const STRING_LITERAL_PATTERN: &'static str = r#""([^"]*)""#;

/// `Chr(n)`, its decimal argument as the first group.
pub const CHR_PATTERN: &'static str = r"(?i)chr\s*\(\s*(\d+)\s*\)";

/// The text of each match that `Regex::find_iter` yields on `haystack`, in order, for the
/// regex that `Regex::new(pattern)` builds; no match when the pattern does not build.
pub uninterp spec fn regex_find_all(pattern: Seq<char>, haystack: Seq<char>) -> Seq<Seq<char>>;

/// For each match that `Regex::captures_iter` yields on `haystack`, in order, the text of
/// each group (group 0 first; `None` for a group that took no part) and the byte offset in
/// `haystack` where the match ends, for the regex that `Regex::new(pattern)` builds; no match
/// when the pattern does not build.
pub uninterp spec fn regex_captures_all(pattern: Seq<char>, haystack: Seq<char>) -> Seq<
    (Seq<Option<Seq<char>>>, usize),
>;

/// The groups of the match that `Regex::captures` finds in `haystack` (the leftmost-first
/// one), as `regex_captures_all` gives them; `None` when there is no match or the pattern
/// does not build.
pub uninterp spec fn regex_captures_first(pattern: Seq<char>, haystack: Seq<char>) -> Option<
    Seq<Option<Seq<char>>>,
>;

/// Calls `regex::Regex::new` and `Regex::find_iter`, and copies out the text of each match.
/// The contract claims that the result is `regex_find_all` of the arguments, and that each
/// match is a piece of the haystack (`Match::as_str` gives "the substring of the haystack
/// that matched").
#[verifier::external_body]
pub(crate) fn find_all(pattern: &str, haystack: &str) -> (res: Vec<String>)
    ensures
        res.deep_view() == regex_find_all(pattern@, haystack@),
        forall|i: int|
            0 <= i < res.deep_view().len() ==> occurs_in(haystack@, #[trigger] res.deep_view()[i]),
{
    match regex::Regex::new(pattern) {
        Ok(re) => re.find_iter(haystack).map(|m| m.as_str().to_string()).collect(),
        Err(_) => Vec::new(),
    }
}

/// Calls `regex::Regex::new` and `Regex::captures_iter`, and copies out the text of each
/// group of each match and the end offset of the whole match (`Captures::get_match`,
/// `Match::end`). The contract claims that the result is `regex_captures_all` of the
/// arguments, and, as `Match::end` documents, that each end offset lies within the haystack
/// on a UTF-8 character boundary.
#[verifier::external_body]
pub(crate) fn captures_all(pattern: &str, haystack: &str) -> (res: Vec<
    (Vec<Option<String>>, usize),
>)
    ensures
        res.deep_view() == regex_captures_all(pattern@, haystack@),
        forall|i: int|
            0 <= i < res.deep_view().len() ==> #[trigger] res.deep_view()[i].1 <= haystack.spec_bytes().len()
                && is_char_boundary(haystack.spec_bytes(), res.deep_view()[i].1 as int),
{
    match regex::Regex::new(pattern) {
        Ok(re) => re.captures_iter(haystack).map(
            |c| (c.iter().map(|g| g.map(|m| m.as_str().to_string())).collect(), c.get_match().end()),
        ).collect(),
        Err(_) => Vec::new(),
    }
}

/// Calls `regex::Regex::new` and `Regex::captures`, and copies out the text of each group.
/// The contract claims that the result is `regex_captures_first` of the arguments.
#[verifier::external_body]
pub(crate) fn captures_first(pattern: &str, haystack: &str) -> (res: Option<
    Vec<Option<String>>,
>)
    ensures
        res.deep_view() == regex_captures_first(pattern@, haystack@),
{
    match regex::Regex::new(pattern) {
        Ok(re) => re.captures(haystack).map(
            |c| c.iter().map(|g| g.map(|m| m.as_str().to_string())).collect(),
        ),
        Err(_) => None,
    }
}

} // verus!

//! Regular expressions, matched by the `regex` crate.

use vstd::prelude::*;

verus! {

/// What the leftmost match of the regular expression `pattern` in `text` captures: the
/// whole match first, then each of the pattern's groups in the order of their opening
/// brackets, a group that took no part in the match being `None`. The result is `None`
/// where nothing in `text` matches, or where `pattern` is no regular expression.
pub uninterp spec fn regex_captures(pattern: Seq<char>, text: Seq<char>) -> Option<
    Seq<Option<Seq<char>>>,
>;

/// Matches `pattern` against `text` and copies out what the groups captured.
///
/// Calls `regex::Regex::new` and `regex::Regex::captures`. Nothing is claimed of the
/// result but that it depends on the two texts alone: it is what `regex_captures` names.
#[verifier::external_body]
pub(crate) fn captures(pattern: &str, text: &str) -> (groups: Option<Vec<Option<String>>>)
    ensures
        groups.deep_view() == regex_captures(pattern@, text@),
{
    match regex::Regex::new(pattern) {
        Ok(re) => re.captures(text).map(
            |found| found.iter().map(|group| group.map(|m| m.as_str().to_string())).collect(),
        ),
        Err(_) => None,
    }
}

} // verus!

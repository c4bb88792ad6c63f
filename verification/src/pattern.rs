//! Regular expressions: the calls into the `regex` crate.
//!
//! What an expression matches is not stated here. Each call gets a name for
//! its result, which says that the result depends on the pattern and the
//! text alone; every function of the library that makes such a call says
//! what it does with the result.

use vstd::prelude::*;

verus! {

/// What `regex::Regex::replace_all` returns for a text and a replacement,
/// on the expression that `regex::Regex::new` compiles from a pattern;
/// `None` where the pattern does not compile.
pub uninterp spec fn regex_replace_all(
    pattern: Seq<char>,
    text: Seq<char>,
    replacement: Seq<char>,
) -> Option<Seq<char>>;

/// Compiles `pattern` with `regex::Regex::new` and replaces with
/// `regex::Regex::replace_all` every match in `text` by `replacement`.
/// `None` where the pattern does not compile. The contract gives the result
/// its name and says no more of it.
#[verifier::external_body]
pub(crate) fn replace_all(pattern: &str, text: &str, replacement: &str) -> (r: Option<String>)
    ensures
        match regex_replace_all(pattern@, text@, replacement@) {
            Some(replaced) => r matches Some(s) && s@ == replaced,
            None => r is None,
        },
{
    match regex::Regex::new(pattern) {
        Ok(re) => Some(re.replace_all(text, replacement).into_owned()),
        Err(_) => None,
    }
}

/// What `regex::Regex::is_match` returns for a text, on the expression that
/// `regex::Regex::new` compiles from a pattern; `None` where the pattern
/// does not compile.
pub uninterp spec fn regex_is_match(pattern: Seq<char>, text: Seq<char>) -> Option<bool>;

/// Compiles `pattern` with `regex::Regex::new` and asks
/// `regex::Regex::is_match` whether it matches anywhere in `text`. `None`
/// where the pattern does not compile. The contract gives the result its
/// name and says no more of it.
#[verifier::external_body]
pub(crate) fn is_match(pattern: &str, text: &str) -> (r: Option<bool>)
    ensures
        r == regex_is_match(pattern@, text@),
{
    match regex::Regex::new(pattern) {
        Ok(re) => Some(re.is_match(text)),
        Err(_) => None,
    }
}

/// What `regex::Regex::captures_iter` yields for a text, on the expression
/// that `regex::Regex::new` compiles from a pattern: for each match, in
/// their order, the text of each of its groups, the whole match first, and
/// `None` for a group that took no part. `None` where the pattern does not
/// compile.
pub uninterp spec fn regex_captures(pattern: Seq<char>, text: Seq<char>) -> Option<
    Seq<Seq<Option<Seq<char>>>>,
>;

/// The texts of the groups of one match.
pub open spec fn groups_view(groups: Seq<Option<String>>) -> Seq<Option<Seq<char>>> {
    Seq::new(
        groups.len(),
        |i: int|
            match groups[i] {
                Some(s) => Some(s@),
                None => None,
            },
    )
}

/// The texts of the groups of each match.
pub open spec fn matches_view(matches: Seq<Vec<Option<String>>>) -> Seq<Seq<Option<Seq<char>>>> {
    Seq::new(matches.len(), |i: int| groups_view(matches[i]@))
}

/// Compiles `pattern` with `regex::Regex::new` and walks the matches that
/// `regex::Regex::captures_iter` finds in `text`; of each match it copies
/// the text of every group, as `regex::Captures::iter` and
/// `regex::Match::as_str` give it. `None` where the pattern does not
/// compile. The contract gives the result its name and says no more of it.
#[verifier::external_body]
pub(crate) fn captures_all(pattern: &str, text: &str) -> (r: Option<Vec<Vec<Option<String>>>>)
    ensures
        match regex_captures(pattern@, text@) {
            Some(found) => r matches Some(v) && matches_view(v@) == found,
            None => r is None,
        },
{
    match regex::Regex::new(pattern) {
        Ok(re) => Some(
            re.captures_iter(text).map(
                |c| c.iter().map(|m| m.map(|g| g.as_str().to_owned())).collect(),
            ).collect(),
        ),
        Err(_) => None,
    }
}

} // verus!

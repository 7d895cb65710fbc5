//! Patterns, matched by the `regex` crate.
use vstd::prelude::*;

use crate::text;

verus! {

/// Whether ranges of bytes follow one another in a text, each between characters.
pub open spec fn in_turn(ranges: Seq<(usize, usize)>, s: Seq<char>) -> bool {
    &&& forall|i: int|
        0 <= i < ranges.len() ==> {
            &&& (#[trigger] ranges[i]).0 <= ranges[i].1
            &&& text::chars_in(s, ranges[i].0 as int, 0) is Some
            &&& text::chars_in(s, ranges[i].1 as int, 0) is Some
        }
    &&& forall|i: int, j: int|
        0 <= i < j < ranges.len() ==> (#[trigger] ranges[i]).1 <= (#[trigger] ranges[j]).0
}

/// Where `Regex::find_iter` finds a pattern in a text, by bytes; or, where `Regex::new` does not
/// take the pattern, the words of the error.
pub uninterp spec fn pattern_ranges(pattern: Seq<char>, s: Seq<char>) -> Result<
    Seq<(usize, usize)>,
    Seq<char>,
>;

/// `Regex::new`, then `Regex::find_iter`: where the pattern is found in the text. Matches follow
/// one another and begin and end between characters. What a pattern matches is not stated.
#[verifier::external_body]
pub(crate) fn find_iter(pattern: &str, s: &str) -> (r: Result<Vec<(usize, usize)>, String>)
    ensures
        r is Ok <==> pattern_ranges(pattern@, s@) is Ok,
        r matches Ok(found) ==> found@ == pattern_ranges(pattern@, s@)->Ok_0,
        r matches Ok(found) ==> in_turn(found@, s@),
        r matches Err(words) ==> words@ == pattern_ranges(pattern@, s@)->Err_0,
{
    match regex::Regex::new(pattern) {
        Ok(regex) => Ok(regex.find_iter(s).map(|found| (found.start(), found.end())).collect()),
        Err(error) => Err(error.to_string()),
    }
}

/// Whether `Regex::is_match` finds a pattern in a text; or, where `Regex::new` does not take the
/// pattern, the words of the error.
pub uninterp spec fn pattern_matches(pattern: Seq<char>, s: Seq<char>) -> Result<bool, Seq<char>>;

/// `Regex::new`, then `Regex::is_match`: whether the pattern is found in the text. What a pattern
/// matches is not stated.
#[verifier::external_body]
pub(crate) fn is_match(pattern: &str, s: &str) -> (r: Result<bool, String>)
    ensures
        r is Ok <==> pattern_matches(pattern@, s@) is Ok,
        r matches Ok(found) ==> found == pattern_matches(pattern@, s@)->Ok_0,
        r matches Err(words) ==> words@ == pattern_matches(pattern@, s@)->Err_0,
{
    match regex::Regex::new(pattern) {
        Ok(regex) => Ok(regex.is_match(s)),
        Err(error) => Err(error.to_string()),
    }
}

/// What optional strings are.
pub open spec fn opt_strings(v: Seq<Option<String>>) -> Seq<Option<Seq<char>>> {
    v.map_values(|s: Option<String>| text::opt(s))
}

/// What `Regex::captures` finds of a pattern in a text: the texts of its groups, the first of
/// which is the whole match; or, where `Regex::new` does not take the pattern, the words of the
/// error.
pub uninterp spec fn pattern_groups(pattern: Seq<char>, s: Seq<char>) -> Result<
    Option<Seq<Option<Seq<char>>>>,
    Seq<char>,
>;

/// What groups are.
pub open spec fn opt_groups(groups: Option<Vec<Option<String>>>) -> Option<
    Seq<Option<Seq<char>>>,
> {
    match groups {
        Some(groups) => Some(opt_strings(groups@)),
        None => None,
    }
}

/// `Regex::new`, then `Regex::captures`: the groups of the first match of the pattern in the
/// text. What a pattern matches is not stated.
#[verifier::external_body]
pub(crate) fn captures(pattern: &str, s: &str) -> (r: Result<Option<Vec<Option<String>>>, String>)
    ensures
        r is Ok <==> pattern_groups(pattern@, s@) is Ok,
        r matches Ok(found) ==> opt_groups(found) == pattern_groups(pattern@, s@)->Ok_0,
        r matches Err(words) ==> words@ == pattern_groups(pattern@, s@)->Err_0,
{
    match regex::Regex::new(pattern) {
        Ok(regex) => Ok(
            regex.captures(s).map(
                |found| {
                    found.iter().map(|group| group.map(|m| m.as_str().to_owned())).collect()
                },
            ),
        ),
        Err(error) => Err(error.to_string()),
    }
}

} // verus!

//! The one place where the regex engine is called.

use vstd::prelude::*;
use vstd::string::StringSliceAdditionalSpecFns;
use vstd::utf8::is_char_boundary;

verus! {

/// The error that the regex engine reports for a pattern it refuses.
#[verifier::external_type_specification]
#[verifier::external_body]
pub struct ExRegexError(regex::Error);

/// Whether the regex engine compiles `pattern`.
pub uninterp spec fn regex_accepts(pattern: Seq<char>) -> bool;

/// The first match of `pattern` in `haystack`, leftmost first, as the byte
/// offsets of its start and its end in the UTF-8 encoding of `haystack`.
pub uninterp spec fn regex_find(pattern: Seq<char>, haystack: Seq<char>) -> Option<(int, int)>;

/// Compiles `pattern` with `regex::Regex::new` and searches `haystack` with
/// `Regex::find`. Which patterns compile and what they match is the regex
/// engine's business and only given a name here. What is taken on trust
/// beyond that is what the engine documents of every match: its start does
/// not lie behind its end, both lie within the haystack, and both fall on
/// character boundaries.
#[verifier::external_body]
pub(crate) fn first_match(pattern: &str, haystack: &str) -> (found: Result<
    Option<(usize, usize)>,
    regex::Error,
>)
    ensures
        found is Ok <==> regex_accepts(pattern@),
        found matches Ok(Some((start, end))) ==> {
            &&& regex_find(pattern@, haystack@) == Some((start as int, end as int))
            &&& start <= end <= haystack.spec_bytes().len()
            &&& is_char_boundary(haystack.spec_bytes(), start as int)
            &&& is_char_boundary(haystack.spec_bytes(), end as int)
        },
        found matches Ok(None) ==> regex_find(pattern@, haystack@) is None,
{
    let regex = regex::Regex::new(pattern)?;
    Ok(regex.find(haystack).map(|m| (m.start(), m.end())))
}

} // verus!

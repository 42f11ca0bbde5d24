//! Matching of a pattern against single lines.

use vstd::prelude::*;
use vstd::string::*;

verus! {

/// The lowercase form that `str::to_lowercase` gives a text.
pub uninterp spec fn lowercase(text: Seq<char>) -> Seq<char>;

/// `str::to_lowercase` depends on the characters of its argument alone and
/// returns their lowercase form as a new string. Nothing is claimed about
/// which characters that form holds.
pub assume_specification[ str::to_lowercase ](text: &str) -> (folded: String)
    ensures
        folded@ == lowercase(text@),
;

/// `needle` stands in `hay` at position `at`.
pub open spec fn occurs_at(needle: Seq<char>, hay: Seq<char>, at: int) -> bool {
    &&& 0 <= at
    &&& at + needle.len() <= hay.len()
    &&& hay.subrange(at, at + needle.len()) == needle
}

/// `needle` stands somewhere in `hay`.
pub open spec fn is_substring(needle: Seq<char>, hay: Seq<char>) -> bool {
    exists|at: int| occurs_at(needle, hay, at)
}

/// `str::contains` with a string pattern: true exactly when the characters of
/// `needle` occur, in order and without a gap, somewhere in `hay`.
#[verifier::external_body]
fn contains_text(hay: &str, needle: &str) -> (found: bool)
    ensures
        found == is_substring(needle@, hay@),
{
    hay.contains(needle)
}

/// A text between two boundary markers, each a single space.
pub open spec fn padded(text: Seq<char>) -> Seq<char> {
    seq![' '] + text + seq![' ']
}

/// What is compared of a line or a pattern: padded first when whole words are
/// asked for, then lowercased when case is ignored.
pub open spec fn comparison_form(exact_match: bool, case_insensitive: bool, text: Seq<char>) -> Seq<
    char,
> {
    let framed = if exact_match {
        padded(text)
    } else {
        text
    };
    if case_insensitive {
        lowercase(framed)
    } else {
        framed
    }
}

/// Whether a line matches a pattern under the two toggles.
pub open spec fn matches_line(
    exact_match: bool,
    case_insensitive: bool,
    pattern: Seq<char>,
    line: Seq<char>,
) -> bool {
    is_substring(
        comparison_form(exact_match, case_insensitive, pattern),
        comparison_form(exact_match, case_insensitive, line),
    )
}

/// Puts a boundary marker on both sides of `text`.
pub fn pad(text: &str) -> (framed: String)
    ensures
        framed@ == padded(text@),
{
    proof {
        reveal_strlit(" ");
    }
    let mut framed = String::from_str(" ");
    framed.append(text);
    framed.append(" ");
    assert(framed@ =~= padded(text@));
    framed
}

/// The line as it is compared: lowercased when case is ignored, else as it is.
pub fn line_to_check(case_insensitive: &bool, line: &String) -> (checked: String)
    ensures
        checked@ == comparison_form(false, *case_insensitive, line@),
{
    if *case_insensitive {
        line.as_str().to_lowercase()
    } else {
        line.clone()
    }
}

/// The pattern as it is searched for: padded when whole words are asked for,
/// then lowercased when case is ignored.
pub fn search_string(exact_match: &bool, case_insensitive: &bool, pattern: &str) -> (needle: String)
    ensures
        needle@ == comparison_form(*exact_match, *case_insensitive, pattern@),
{
    let framed = if *exact_match {
        pad(pattern)
    } else {
        String::from_str(pattern)
    };
    if *case_insensitive {
        framed.as_str().to_lowercase()
    } else {
        framed
    }
}

/// Tells whether `line` matches `pattern`. With `exact_match` the pattern has
/// to stand in the line as a word of its own: line and pattern both get a
/// boundary marker on either side before they are compared.
pub fn line_matches(exact_match: bool, case_insensitive: bool, pattern: &str, line: &String) -> (found:
    bool)
    ensures
        found == matches_line(exact_match, case_insensitive, pattern@, line@),
{
    let needle = search_string(&exact_match, &case_insensitive, pattern);
    let hay = if exact_match {
        let framed = pad(line.as_str());
        line_to_check(&case_insensitive, &framed)
    } else {
        line_to_check(&case_insensitive, line)
    };
    contains_text(hay.as_str(), needle.as_str())
}

} // verus!

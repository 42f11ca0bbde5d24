//! Terminal emphasis for headers, line numbers and matched text.
//!
//! Whether emphasis is applied at all is settled outside this library, by the
//! terminal and the environment of the process. The contracts here therefore
//! say what a styled text can be, not which of the two forms it takes.

use crate::text::is_substring;
use colored::Colorize;
use vstd::prelude::*;

verus! {

/// The escape sequence that ends every emphasis.
pub open spec fn reset_code() -> Seq<char> {
    seq!['\u{1b}', '[', '0', 'm']
}

/// The escape sequence that starts bold text in the colour with digit `colour`.
pub open spec fn bold_code(colour: char) -> Seq<char> {
    seq!['\u{1b}', '[', '1', ';', '3', colour, 'm']
}

/// Bold red, for file headers.
pub open spec fn header_code() -> Seq<char> {
    bold_code('1')
}

/// Bold yellow, for matched text.
pub open spec fn match_code() -> Seq<char> {
    bold_code('3')
}

/// Bold blue, for line numbers.
pub open spec fn number_code() -> Seq<char> {
    bold_code('4')
}

/// `shown` is `plain` with the emphasis that starts with `code`: either left
/// as it is, where emphasis is switched off, or put between `code` and the
/// reset sequence. A text that holds a reset sequence of its own is rewritten
/// inside as well, and nothing is said of it.
pub open spec fn styled(plain: Seq<char>, code: Seq<char>, shown: Seq<char>) -> bool {
    !is_substring(reset_code(), plain) ==> (shown == plain || shown == code + plain + reset_code())
}

/// `Colorize::red` and `Colorize::bold` of the `colored` crate, and the
/// `Display` of the `ColoredString` they give. With colours switched off the
/// text comes back unchanged; with colours on it stands between the sequence
/// for bold red and the reset sequence, provided it holds no reset sequence
/// itself.
#[verifier::external_body]
pub(crate) fn paint_header(text: &str) -> (shown: String)
    ensures
        styled(text@, header_code(), shown@),
{
    text.red().bold().to_string()
}

/// `Colorize::yellow` and `Colorize::bold` of the `colored` crate, and the
/// `Display` of the `ColoredString` they give: the text unchanged, or between
/// the sequence for bold yellow and the reset sequence.
#[verifier::external_body]
pub(crate) fn paint_match(text: &str) -> (shown: String)
    ensures
        styled(text@, match_code(), shown@),
{
    text.yellow().bold().to_string()
}

/// `Colorize::bold` and `Colorize::blue` of the `colored` crate, and the
/// `Display` of the `ColoredString` they give: the text unchanged, or between
/// the sequence for bold blue and the reset sequence.
#[verifier::external_body]
pub(crate) fn paint_number(text: &str) -> (shown: String)
    ensures
        styled(text@, number_code(), shown@),
{
    text.bold().blue().to_string()
}

} // verus!

//! How a matching line is shown: its number, and the line with the pattern
//! emphasised wherever it occurs, in whatever case.

use crate::config::Config;
use crate::style::{match_code, number_code, paint_match, paint_number, reset_code, styled};
use crate::text::{is_substring, occurs_at};
use regex::Regex;
use vstd::prelude::*;
use vstd::string::*;
use vstd::utf8::*;

verus! {

/// The character for a digit.
pub open spec fn digit_char(digit: nat) -> char {
    if digit == 0 {
        '0'
    } else if digit == 1 {
        '1'
    } else if digit == 2 {
        '2'
    } else if digit == 3 {
        '3'
    } else if digit == 4 {
        '4'
    } else if digit == 5 {
        '5'
    } else if digit == 6 {
        '6'
    } else if digit == 7 {
        '7'
    } else if digit == 8 {
        '8'
    } else {
        '9'
    }
}

/// A number in decimal digits, without leading zeros.
pub open spec fn decimal(number: nat) -> Seq<char>
    decreases number,
{
    if number < 10 {
        seq![digit_char(number)]
    } else {
        decimal(number / 10).push(digit_char(number % 10))
    }
}

/// The text of a single digit.
fn digit_text(digit: usize) -> (text: &'static str)
    requires
        digit < 10,
    ensures
        text@ == seq![digit_char(digit as nat)],
{
    proof {
        reveal_strlit("0");
        reveal_strlit("1");
        reveal_strlit("2");
        reveal_strlit("3");
        reveal_strlit("4");
        reveal_strlit("5");
        reveal_strlit("6");
        reveal_strlit("7");
        reveal_strlit("8");
        reveal_strlit("9");
    }
    let text = match digit {
        0 => "0",
        1 => "1",
        2 => "2",
        3 => "3",
        4 => "4",
        5 => "5",
        6 => "6",
        7 => "7",
        8 => "8",
        _ => "9",
    };
    assert(text@ =~= seq![digit_char(digit as nat)]);
    text
}

/// Writes a number in decimal digits.
pub fn decimal_text(number: usize) -> (text: String)
    ensures
        text@ == decimal(number as nat),
{
    let mut text = String::from_str(digit_text(number % 10));
    let mut rest: usize = number / 10;
    assert(decimal(number as nat) =~= if rest > 0 {
        decimal(rest as nat) + text@
    } else {
        text@
    });
    while rest > 0
        invariant
            decimal(number as nat) == if rest > 0 {
                decimal(rest as nat) + text@
            } else {
                text@
            },
        decreases rest,
    {
        let ghost shorter = text@;
        let ghost before = rest;
        text = String::from_str(digit_text(rest % 10)).concat(text.as_str());
        rest = rest / 10;
        proof {
            let digit = seq![digit_char((before % 10) as nat)];
            assert(text@ == digit + shorter);
            if rest > 0 {
                assert(decimal(before as nat) =~= decimal(rest as nat) + digit);
                assert((decimal(rest as nat) + digit) + shorter =~= decimal(rest as nat) + text@);
            } else {
                assert(decimal(before as nat) =~= digit);
            }
        }
    }
    text
}

/// No escape character stands among the digits of a number.
proof fn lemma_decimal_is_plain(number: nat)
    ensures
        forall|i: int| 0 <= i < decimal(number).len() ==> decimal(number)[i] != '\u{1b}',
    decreases number,
{
    if number >= 10 {
        lemma_decimal_is_plain(number / 10);
    }
    assert forall|i: int| 0 <= i < decimal(number).len() implies decimal(number)[i]
        != '\u{1b}' by {
        if number >= 10 && i < decimal(number / 10).len() {
            assert(decimal(number)[i] == decimal(number / 10)[i]);
        } else {
            let digit = if number < 10 {
                number
            } else {
                number % 10
            };
            assert(decimal(number)[i] == digit_char(digit));
        }
    }
}

/// `shown` is `plain`, either as it is or between `code` and the reset
/// sequence.
pub open spec fn emphasis(plain: Seq<char>, code: Seq<char>, shown: Seq<char>) -> bool {
    shown == plain || shown == code + plain + reset_code()
}

/// The number of a line as it stands before the line: in decimal digits,
/// emphasised where emphasis is switched on.
pub fn number_label(line_number: usize) -> (label: String)
    ensures
        emphasis(decimal(line_number as nat), number_code(), label@),
{
    let digits = decimal_text(line_number);
    proof {
        lemma_decimal_is_plain(line_number as nat);
        if is_substring(reset_code(), digits@) {
            let at = choose|at: int| occurs_at(reset_code(), digits@, at);
            assert(digits@.subrange(at, at + 4)[0] == reset_code()[0]);
        }
    }
    paint_number(digits.as_str())
}

/// Whether a character has a meaning of its own in a regular expression.
pub open spec fn is_meta(c: char) -> bool {
    c == '\\' || c == '.' || c == '+' || c == '*' || c == '?' || c == '(' || c == ')' || c == '|'
        || c == '[' || c == ']' || c == '{' || c == '}' || c == '^' || c == '$' || c == '#' || c
        == '&' || c == '-' || c == '~'
}

/// A text with a backslash before each character that has a meaning of its
/// own in a regular expression.
pub open spec fn escaped(text: Seq<char>) -> Seq<char>
    decreases text.len(),
{
    if text.len() == 0 {
        Seq::empty()
    } else if is_meta(text.last()) {
        escaped(text.drop_last()).push('\\').push(text.last())
    } else {
        escaped(text.drop_last()).push(text.last())
    }
}

/// `regex::escape` copies its argument and puts a backslash before each of
/// the eighteen characters that the crate counts as meta characters.
pub assume_specification[ regex::escape ](pattern: &str) -> (quoted: String)
    ensures
        quoted@ == escaped(pattern@),
;

/// The regular expression that finds a pattern as it is written, in whatever
/// case.
pub open spec fn highlight_source(pattern: Seq<char>) -> Seq<char> {
    seq!['(', '?', 'i', ')'] + escaped(pattern)
}

/// Where the regular expression `source` matches in `line`: for each match,
/// from the first to the last, the byte offsets of its start and its end.
pub uninterp spec fn match_spans(source: Seq<char>, line: Seq<char>) -> Seq<(usize, usize)>;

/// The spans lie in the text one after the other, without overlap, and each
/// starts and ends between two characters.
pub open spec fn well_placed(spans: Seq<(usize, usize)>, bytes: Seq<u8>) -> bool {
    &&& forall|k: int|
        0 <= k < spans.len() ==> {
            &&& (#[trigger] spans[k]).0 <= spans[k].1 <= bytes.len()
            &&& is_char_boundary(bytes, spans[k].0 as int)
            &&& is_char_boundary(bytes, spans[k].1 as int)
        }
    &&& forall|k: int| 0 < k < spans.len() ==> spans[k - 1].1 <= (#[trigger] spans[k]).0
}

/// `Regex::new` of the `regex` crate, then `Regex::find_iter` over `line`
/// and, of each match, `Match::start` and `Match::end`. Where the expression
/// does not compile, for its syntax or its size, there is no result. Where
/// it does, the matches come one after the other without overlap, and their
/// offsets lie between characters of `line`.
#[verifier::external_body]
fn find_spans(source: &str, line: &str) -> (found: Option<Vec<(usize, usize)>>)
    ensures
        found matches Some(spans) ==> spans@ == match_spans(source@, line@) && well_placed(
            spans@,
            encode_utf8(line@),
        ),
{
    match Regex::new(source) {
        Ok(compiled) => Some(
            compiled.find_iter(line).map(|found| (found.start(), found.end())).collect(),
        ),
        Err(_) => None,
    }
}

/// The characters that `bytes` holds from offset `from` up to offset `to`.
pub open spec fn text_between(bytes: Seq<u8>, from: int, to: int) -> Seq<char> {
    decode_utf8(bytes.subrange(from, to))
}

/// The offset at which the first `count` spans end.
pub open spec fn end_of(spans: Seq<(usize, usize)>, count: int) -> int {
    if count <= 0 {
        0
    } else {
        spans[count - 1].1 as int
    }
}

/// The text up to the end of span `count - 1`, with `pieces` in the place
/// of the spans.
pub open spec fn woven(
    bytes: Seq<u8>,
    spans: Seq<(usize, usize)>,
    pieces: Seq<Seq<char>>,
    count: int,
) -> Seq<char>
    decreases count,
{
    if count <= 0 {
        Seq::empty()
    } else {
        woven(bytes, spans, pieces, count - 1) + text_between(
            bytes,
            end_of(spans, count - 1),
            spans[count - 1].0 as int,
        ) + pieces[count - 1]
    }
}

/// `shown` is `line` with each of `spans` emphasised as matched text, and
/// all else as it was.
pub open spec fn emphasised(line: Seq<char>, spans: Seq<(usize, usize)>, shown: Seq<char>) -> bool {
    let bytes = encode_utf8(line);
    exists|pieces: Seq<Seq<char>>|
        {
            &&& pieces.len() == spans.len()
            &&& forall|k: int|
                0 <= k < spans.len() ==> styled(
                    text_between(bytes, spans[k].0 as int, spans[k].1 as int),
                    match_code(),
                    #[trigger] pieces[k],
                )
            &&& shown == #[trigger] woven(bytes, spans, pieces, spans.len() as int) + text_between(
                bytes,
                end_of(spans, spans.len() as int),
                bytes.len() as int,
            )
        }
}

/// A boundary between characters stays one when the text before an earlier
/// boundary is cut off.
proof fn lemma_boundary_after_cut(bytes: Seq<u8>, cut: int, index: int)
    requires
        valid_utf8(bytes),
        is_char_boundary(bytes, cut),
        is_char_boundary(bytes, index),
        cut <= index,
    ensures
        valid_utf8(bytes.subrange(cut, bytes.len() as int)),
        is_char_boundary(bytes.subrange(cut, bytes.len() as int), index - cut),
{
    let tail = bytes.subrange(cut, bytes.len() as int);
    valid_utf8_split(bytes, cut);
    if index == bytes.len() {
        is_char_boundary_start_end_of_seq(tail);
    } else if index == cut {
    } else {
        is_char_boundary_iff_not_is_continuation_byte(bytes, index);
        is_char_boundary_iff_not_is_continuation_byte(tail, index - cut);
    }
}

/// Puts emphasis on each of `spans` in `line`.
pub fn highlight_spans(line: &str, spans: &Vec<(usize, usize)>) -> (shown: String)
    requires
        well_placed(spans@, encode_utf8(line@)),
    ensures
        emphasised(line@, spans@, shown@),
{
    let ghost bytes = encode_utf8(line@);
    let ghost mut pieces: Seq<Seq<char>> = Seq::empty();
    let mut shown = String::new();
    let mut rest: &str = line;
    let mut at: usize = 0;
    let mut k: usize = 0;
    proof {
        encode_utf8_valid_utf8(line@);
        assert(bytes.subrange(0, bytes.len() as int) =~= bytes);
    }
    while k < spans.len()
        invariant
            k <= spans.len(),
            bytes == encode_utf8(line@),
            valid_utf8(bytes),
            well_placed(spans@, bytes),
            at == end_of(spans@, k as int),
            at <= bytes.len(),
            is_char_boundary(bytes, at as int),
            rest.spec_bytes() == bytes.subrange(at as int, bytes.len() as int),
            pieces.len() == k,
            forall|j: int|
                0 <= j < k ==> styled(
                    text_between(bytes, spans@[j].0 as int, spans@[j].1 as int),
                    match_code(),
                    #[trigger] pieces[j],
                ),
            shown@ == woven(bytes, spans@, pieces, k as int),
        decreases spans.len() - k,
    {
        let (start, end) = spans[k];
        proof {
            if k > 0 {
                assert(spans@[k - 1].1 <= spans@[k as int].0);
            }
            lemma_boundary_after_cut(bytes, at as int, start as int);
        }
        let (plain, tail) = rest.split_at(start - at);
        proof {
            assert(tail.spec_bytes() =~= bytes.subrange(start as int, bytes.len() as int));
            assert(plain.spec_bytes() =~= bytes.subrange(at as int, start as int));
            lemma_boundary_after_cut(bytes, start as int, end as int);
        }
        let (found, after) = tail.split_at(end - start);
        proof {
            assert(found.spec_bytes() =~= bytes.subrange(start as int, end as int));
            assert(after.spec_bytes() =~= bytes.subrange(end as int, bytes.len() as int));
            encode_utf8_decode_utf8(plain@);
            encode_utf8_decode_utf8(found@);
        }
        let painted = paint_match(found);
        let ghost before = pieces;
        let ghost so_far = shown@;
        shown.append(plain);
        shown.append(painted.as_str());
        proof {
            pieces = pieces.push(painted@);
            lemma_woven_keeps(bytes, spans@, before, pieces, k as int);
            assert(shown@ == so_far + plain@ + painted@);
        }
        rest = after;
        at = end;
        k += 1;
    }
    proof {
        encode_utf8_decode_utf8(rest@);
    }
    shown.append(rest);
    shown
}

/// What is woven from the first `count` pieces does not depend on the
/// pieces that follow them.
proof fn lemma_woven_keeps(
    bytes: Seq<u8>,
    spans: Seq<(usize, usize)>,
    pieces: Seq<Seq<char>>,
    longer: Seq<Seq<char>>,
    count: int,
)
    requires
        0 <= count <= pieces.len() <= longer.len(),
        forall|j: int| 0 <= j < pieces.len() ==> pieces[j] == longer[j],
    ensures
        woven(bytes, spans, pieces, count) == woven(bytes, spans, longer, count),
    decreases count,
{
    if count > 0 {
        lemma_woven_keeps(bytes, spans, pieces, longer, count - 1);
    }
}

/// A boundary between characters stays one when the text after a later
/// boundary is cut off.
proof fn lemma_boundary_before_cut(bytes: Seq<u8>, cut: int, index: int)
    requires
        valid_utf8(bytes),
        is_char_boundary(bytes, cut),
        is_char_boundary(bytes, index),
        index <= cut,
    ensures
        valid_utf8(bytes.subrange(0, cut)),
        is_char_boundary(bytes.subrange(0, cut), index),
{
    let head = bytes.subrange(0, cut);
    valid_utf8_split(bytes, cut);
    if index == cut {
        is_char_boundary_start_end_of_seq(head);
    } else if index == 0 {
    } else {
        is_char_boundary_iff_not_is_continuation_byte(bytes, index);
        is_char_boundary_iff_not_is_continuation_byte(head, index);
    }
}

/// Two stretches of text that meet between two characters read as one.
proof fn lemma_text_joins(bytes: Seq<u8>, from: int, mid: int, to: int)
    requires
        valid_utf8(bytes),
        is_char_boundary(bytes, from),
        is_char_boundary(bytes, mid),
        is_char_boundary(bytes, to),
        from <= mid <= to,
    ensures
        text_between(bytes, from, to) == text_between(bytes, from, mid) + text_between(
            bytes,
            mid,
            to,
        ),
{
    let head = bytes.subrange(0, to);
    lemma_boundary_before_cut(bytes, to, from);
    lemma_boundary_before_cut(bytes, to, mid);
    lemma_boundary_after_cut(head, from, mid);
    let part = head.subrange(from, to);
    assert(part =~= bytes.subrange(from, to));
    decode_utf8_split(part, mid - from);
    assert(part.subrange(0, mid - from) =~= bytes.subrange(from, mid));
    assert(part.subrange(mid - from, part.len() as int) =~= bytes.subrange(mid, to));
}

/// The text of each span as it stands in the line.
pub open spec fn plain_pieces(bytes: Seq<u8>, spans: Seq<(usize, usize)>) -> Seq<Seq<char>> {
    Seq::new(spans.len(), |k: int| text_between(bytes, spans[k].0 as int, spans[k].1 as int))
}

/// Woven from the spans' own text, the first spans give the line up to the
/// end of the last of them.
proof fn lemma_woven_plain(bytes: Seq<u8>, spans: Seq<(usize, usize)>, count: int)
    requires
        valid_utf8(bytes),
        well_placed(spans, bytes),
        0 <= count <= spans.len(),
    ensures
        is_char_boundary(bytes, end_of(spans, count)),
        woven(bytes, spans, plain_pieces(bytes, spans), count) == text_between(
            bytes,
            0,
            end_of(spans, count),
        ),
    decreases count,
{
    if count == 0 {
        assert(bytes.subrange(0, 0) =~= Seq::empty());
        assert(decode_utf8(Seq::empty()) =~= Seq::empty()) by {
            reveal_with_fuel(decode_utf8, 1);
        }
    } else {
        lemma_woven_plain(bytes, spans, count - 1);
        let before = end_of(spans, count - 1);
        let span = spans[count - 1];
        if count > 1 {
            assert(spans[count - 2].1 <= span.0);
        }
        lemma_text_joins(bytes, 0, before, span.0 as int);
        lemma_text_joins(bytes, 0, span.0 as int, span.1 as int);
    }
}

/// Emphasis leaves the line as it is: where none of the spans is shown with
/// emphasis, what is shown is the line.
pub proof fn lemma_without_emphasis_line_is_kept(line: Seq<char>, spans: Seq<(usize, usize)>)
    requires
        well_placed(spans, encode_utf8(line)),
    ensures
        woven(
            encode_utf8(line),
            spans,
            plain_pieces(encode_utf8(line), spans),
            spans.len() as int,
        ) + text_between(
            encode_utf8(line),
            end_of(spans, spans.len() as int),
            encode_utf8(line).len() as int,
        ) == line,
        emphasised(line, spans, line),
{
    let bytes = encode_utf8(line);
    let count = spans.len() as int;
    encode_utf8_valid_utf8(line);
    encode_utf8_decode_utf8(line);
    lemma_woven_plain(bytes, spans, count);
    is_char_boundary_start_end_of_seq(bytes);
    lemma_text_joins(bytes, 0, end_of(spans, count), bytes.len() as int);
    assert(bytes.subrange(0, bytes.len() as int) =~= bytes);
    let pieces = plain_pieces(bytes, spans);
    assert(line == woven(bytes, spans, pieces, count) + text_between(
        bytes,
        end_of(spans, count),
        bytes.len() as int,
    ));
}

/// Puts emphasis on what was found in `line`: on each span where the search
/// gave spans, on nothing where it gave none.
pub fn highlight_found(line: &str, found: &Option<Vec<(usize, usize)>>) -> (shown: String)
    requires
        found matches Some(spans) ==> well_placed(spans@, encode_utf8(line@)),
    ensures
        match found {
            Some(spans) => emphasised(line@, spans@, shown@),
            None => shown@ == line@,
        },
{
    match found {
        Some(spans) => highlight_spans(line, spans),
        None => String::from_str(line),
    }
}

/// What stands for the line itself in a rendered line: the line as it is
/// where emphasis of the pattern is not wanted, or where the pattern is too
/// large to search for; else the line with every occurrence of the pattern,
/// in whatever case, emphasised.
pub open spec fn shows_line(
    no_pattern_highlight: bool,
    pattern: Seq<char>,
    line: Seq<char>,
    body: Seq<char>,
) -> bool {
    if no_pattern_highlight {
        body == line
    } else {
        body == line || emphasised(line, match_spans(highlight_source(pattern), line), body)
    }
}

/// Emphasises every occurrence of `pattern` in `line`, in whatever case. The
/// line comes back unchanged where the pattern is too large to search for.
pub fn highlight(pattern: &str, line: &str) -> (shown: String)
    ensures
        shows_line(false, pattern@, line@, shown@),
{
    proof {
        reveal_strlit("(?i)");
    }
    let quoted = regex::escape(pattern);
    let source = String::from_str("(?i)").concat(quoted.as_str());
    assert(source@ =~= highlight_source(pattern@));
    let found = find_spans(source.as_str(), line);
    highlight_found(line, &found)
}

/// A rendered line: the body alone where line numbers are hidden, else the
/// label, a colon and the body.
pub open spec fn numbered(hide_line_numbers: bool, label: Seq<char>, body: Seq<char>) -> Seq<char> {
    if hide_line_numbers {
        body
    } else {
        label + seq![':'] + body
    }
}

/// Puts the number's label before the line.
pub fn render_line(hide_line_numbers: bool, label: &str, body: &str) -> (text: String)
    ensures
        text@ == numbered(hide_line_numbers, label@, body@),
{
    if hide_line_numbers {
        String::from_str(body)
    } else {
        proof {
            reveal_strlit(":");
        }
        let mut text = String::from_str(label);
        text.append(":");
        text.append(body);
        assert(text@ =~= label@ + seq![':'] + body@);
        text
    }
}

/// `text` shows the line with number `line_number` under `config`.
pub open spec fn renders(config: Config, line: Seq<char>, line_number: usize, text: Seq<char>) -> bool {
    exists|label: Seq<char>, body: Seq<char>|
        {
            &&& emphasis(decimal(line_number as nat), number_code(), label)
            &&& shows_line(config.no_pattern_highlight, config.pattern@, line, body)
            &&& text == #[trigger] numbered(config.hide_line_numbers, label, body)
        }
}

/// Renders a matching line for the output: nothing in a quiet run; else
/// the line, with the pattern emphasised unless that is switched off, and
/// with its number before it unless line numbers are hidden.
pub fn format_line(config: &Config, line: &String, line_number: &usize) -> (shown: Option<String>)
    ensures
        shown is None <==> config.quiet,
        shown matches Some(text) ==> renders(*config, line@, *line_number, text@),
{
    if config.quiet {
        return None;
    }
    let body = if config.no_pattern_highlight {
        line.clone()
    } else {
        highlight(config.pattern.as_str(), line.as_str())
    };
    let label = number_label(*line_number);
    let text = render_line(config.hide_line_numbers, label.as_str(), body.as_str());
    assert(text@ == numbered(config.hide_line_numbers, label@, body@));
    Some(text)
}

} // verus!

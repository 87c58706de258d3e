//! The lexical structure of a presentation source, as mathematics: which
//! token starts at a given place of the text, where it ends, and where the
//! tokenizer then stands.

use vstd::prelude::*;
use crate::parsing::token_stream::{
    FailureKindView, FailureView, Position, ResultView, Span, TokenView,
};

verus! {

/// ASCII whitespace: space, tab, line feed, form feed, carriage return.
pub open spec fn is_whitespace(character: char) -> bool {
    character == ' ' || character == '\t' || character == '\n' || character == '\x0C'
        || character == '\r'
}

/// An ASCII letter.
pub open spec fn is_letter(character: char) -> bool {
    ('a' <= character && character <= 'z') || ('A' <= character && character <= 'Z')
}

/// An ASCII decimal digit.
pub open spec fn is_digit(character: char) -> bool {
    '0' <= character && character <= '9'
}

/// A character that a name may hold.
pub open spec fn is_name_character(character: char) -> bool {
    is_letter(character) || is_digit(character) || character == '_' || character == '-'
}

/// The number of bytes that a character takes in UTF-8.
pub open spec fn utf8_width(character: char) -> nat {
    if (character as u32) < 0x80 {
        1
    } else if (character as u32) < 0x800 {
        2
    } else if (character as u32) < 0x1_0000 {
        3
    } else {
        4
    }
}

/// The byte offset, in the UTF-8 form of the source, of the character with
/// index `count`: the widths of the `count` characters before it.
pub open spec fn byte_index(source: Seq<char>, count: int) -> nat
    decreases count,
{
    if count <= 0 {
        0
    } else {
        byte_index(source, count - 1) + utf8_width(source[count - 1])
    }
}

/// Where the tokenizer stands once it has read the first `count` characters:
/// every character advances the column, and a line feed starts the next
/// line at column 0.
pub open spec fn position_after(source: Seq<char>, count: int) -> Position
    decreases count,
{
    if count <= 0 {
        Position { line: 0, column: 0 }
    } else {
        let before = position_after(source, count - 1);
        if source[count - 1] == '\n' {
            Position { line: before.line + 1, column: 0 }
        } else {
            Position { line: before.line, column: before.column + 1 }
        }
    }
}

/// Where the tokenizer stands once it has read the whole source and found
/// nothing after it: the end of the input counts as one more column.
pub open spec fn position_past_end(source: Seq<char>) -> Position {
    let last = position_after(source, source.len() as int);
    Position { line: last.line, column: last.column + 1 }
}

/// The range that starts and ends at one position.
pub open spec fn point(position: Position) -> Span {
    Span { start: position, end: position }
}

/// The token that a completed word stands for: one of the nine keywords, or
/// a name.
pub open spec fn word_token(text: Seq<char>) -> TokenView {
    if text == "slide"@ {
        TokenView::KeywordSlide
    } else if text == "title"@ {
        TokenView::KeywordTitle
    } else if text == "metadata"@ {
        TokenView::KeywordMetadata
    } else if text == "style"@ {
        TokenView::KeywordStyle
    } else if text == "font"@ {
        TokenView::KeywordFont
    } else if text == "name"@ {
        TokenView::KeywordName
    } else if text == "path"@ {
        TokenView::KeywordPath
    } else if text == "weight"@ {
        TokenView::KeywordWeight
    } else if text == "italic"@ {
        TokenView::KeywordItalic
    } else {
        TokenView::Name(text)
    }
}

/// The value of a run of decimal digits.
pub open spec fn digits_value(digits: Seq<char>) -> nat
    decreases digits.len(),
{
    if digits.len() == 0 {
        0
    } else {
        (digits_value(digits.drop_last()) * 10 + (digits.last() as u32 - '0' as u32)) as nat
    }
}

/// Whether every character of `text` is a decimal digit.
pub open spec fn all_digits(text: Seq<char>) -> bool {
    forall|i: int| 0 <= i < text.len() ==> is_digit(#[trigger] text[i])
}

/// The value of an integer literal: digits, or `-` and digits, as far as
/// the value fits in 128 signed bits. Anything else has no value.
pub open spec fn integer_value(text: Seq<char>) -> Option<int> {
    if text.len() > 0 && text[0] == '-' {
        let digits = text.skip(1);
        if digits.len() > 0 && all_digits(digits) && digits_value(digits) <= -(i128::MIN as int) {
            Some(-(digits_value(digits) as int))
        } else {
            None
        }
    } else if text.len() > 0 && all_digits(text) && digits_value(text) <= i128::MAX {
        Some(digits_value(text) as int)
    } else {
        None
    }
}

/// The text of a string literal whose source form, between the quotation
/// marks, is `raw`: each `\"` stands for a quotation mark, and every other
/// character for itself.
pub open spec fn unescape(raw: Seq<char>) -> Seq<char>
    decreases raw.len(),
{
    if raw.len() == 0 {
        raw
    } else if raw[0] == '\\' && raw.len() >= 2 && raw[1] == '"' {
        seq!['"'] + unescape(raw.skip(2))
    } else {
        seq![raw[0]] + unescape(raw.skip(1))
    }
}

/// The source form of `text` between quotation marks: each quotation mark
/// gets a backslash before it.
pub open spec fn escape(text: Seq<char>) -> Seq<char>
    decreases text.len(),
{
    if text.len() == 0 {
        text
    } else if text[0] == '"' {
        seq!['\\', '"'] + escape(text.skip(1))
    } else {
        seq![text[0]] + escape(text.skip(1))
    }
}

/// The first index at or after `from` that holds no whitespace, or the
/// length of the source where only whitespace is left.
pub open spec fn skip_whitespace(source: Seq<char>, from: int) -> int
    decreases source.len() - from,
{
    if from >= source.len() {
        source.len() as int
    } else if 0 <= from && is_whitespace(source[from]) {
        skip_whitespace(source, from + 1)
    } else {
        from
    }
}

/// Whether the character after index `at` is a comma.
pub open spec fn followed_by_comma(source: Seq<char>, at: int) -> bool {
    0 <= at + 1 < source.len() && source[at + 1] == ','
}

/// Where reading a name stops, when the character at `from` is the next to
/// be looked at: at the first index that is the end of the source, has a
/// comma right after it, or holds no name character.
pub open spec fn name_stop(source: Seq<char>, from: int) -> int
    decreases source.len() - from,
{
    if from >= source.len() {
        source.len() as int
    } else if from < 0 || followed_by_comma(source, from) || !is_name_character(source[from]) {
        from
    } else {
        name_stop(source, from + 1)
    }
}

/// The first index at or after `from` that holds no digit, or the length of
/// the source.
pub open spec fn digits_end(source: Seq<char>, from: int) -> int
    decreases source.len() - from,
{
    if from >= source.len() {
        source.len() as int
    } else if 0 <= from && is_digit(source[from]) {
        digits_end(source, from + 1)
    } else {
        from
    }
}

/// How the body of a string literal ends.
pub enum StringEnd {
    /// The closing quotation mark stands at this index.
    Closed(int),
    /// The backslash at this index has something other than a quotation
    /// mark after it.
    UnknownEscape(int),
    /// The source ends with a backslash.
    UnfinishedEscape,
    /// The source ends before the closing quotation mark.
    Unclosed,
}

/// How the body of a string literal ends, read from index `from` on.
pub open spec fn string_end(source: Seq<char>, from: int) -> StringEnd
    decreases source.len() - from,
{
    if from < 0 || from >= source.len() {
        StringEnd::Unclosed
    } else if source[from] == '"' {
        StringEnd::Closed(from)
    } else if source[from] == '\\' {
        if from + 1 >= source.len() {
            StringEnd::UnfinishedEscape
        } else if source[from + 1] == '"' {
            string_end(source, from + 2)
        } else {
            StringEnd::UnknownEscape(from)
        }
    } else {
        string_end(source, from + 1)
    }
}

/// One step of the tokenizer: what it yields, and how many characters of
/// the source it has read by then.
pub struct Scan {
    pub result: ResultView,
    pub next: int,
}

/// A failure of the given kind at the given position.
pub open spec fn failure(kind: FailureKindView, location: Position) -> ResultView {
    ResultView::Failure(FailureView { kind, location })
}

/// The name or keyword whose first letter stands at `at`.
///
/// The word ends before whitespace, which is read and dropped, at the end
/// of the source, or with the character that has a comma right after it,
/// whatever that character is: the comma is left for the next step. Any
/// other character that a name cannot hold is a failure.
pub open spec fn scan_name(source: Seq<char>, at: int) -> Scan {
    let stop = name_stop(source, at);
    let start = position_after(source, at + 1);
    if stop >= source.len() {
        Scan {
            result: ResultView::Token(
                word_token(source.subrange(at, source.len() as int)),
                Span { start, end: position_past_end(source) },
            ),
            next: source.len() as int,
        }
    } else if followed_by_comma(source, stop) {
        Scan {
            result: ResultView::Token(
                word_token(source.subrange(at, stop + 1)),
                Span { start, end: position_after(source, stop + 1) },
            ),
            next: stop + 1,
        }
    } else if is_whitespace(source[stop]) {
        Scan {
            result: ResultView::Token(
                word_token(source.subrange(at, stop)),
                Span { start, end: position_after(source, stop + 1) },
            ),
            next: stop + 1,
        }
    } else {
        Scan {
            result: failure(
                FailureKindView::UnexpectedCharacterInName {
                    index: byte_index(source, stop),
                    character: source[stop],
                },
                position_after(source, stop + 1),
            ),
            next: stop + 1,
        }
    }
}

/// The string literal whose opening quotation mark stands at `at`.
pub open spec fn scan_string(source: Seq<char>, at: int) -> Scan {
    match string_end(source, at + 1) {
        StringEnd::Closed(close) => Scan {
            result: ResultView::Token(
                TokenView::String(unescape(source.subrange(at + 1, close))),
                Span {
                    start: position_after(source, at + 1),
                    end: position_after(source, close + 1),
                },
            ),
            next: close + 1,
        },
        StringEnd::UnknownEscape(slash) => Scan {
            result: failure(
                FailureKindView::UnknownEscapeSequence(source[slash + 1]),
                position_after(source, slash + 1),
            ),
            next: slash + 1,
        },
        StringEnd::UnfinishedEscape => Scan {
            result: failure(
                FailureKindView::UnfinishedEscapeSequence,
                position_after(source, source.len() as int),
            ),
            next: source.len() as int,
        },
        StringEnd::Unclosed => Scan {
            result: failure(FailureKindView::UnclosedString, position_past_end(source)),
            next: source.len() as int,
        },
    }
}

/// The integer literal whose first character, a digit or `-`, stands at
/// `at`: that character and the digits that follow it.
pub open spec fn scan_number(source: Seq<char>, at: int) -> Scan {
    let end = digits_end(source, at + 1);
    let text = source.subrange(at, end);
    let stop = position_after(source, end);
    Scan {
        result: match integer_value(text) {
            Some(value) => ResultView::Token(
                TokenView::Integer(value),
                Span { start: position_after(source, at + 1), end: stop },
            ),
            None => failure(FailureKindView::InvalidIntegerValue(text), stop),
        },
        next: end,
    }
}

/// The token that starts with the character at `at`, which is no
/// whitespace.
pub open spec fn scan_token(source: Seq<char>, at: int) -> Scan {
    let character = source[at];
    let here = position_after(source, at + 1);
    if is_letter(character) {
        scan_name(source, at)
    } else if character == '"' {
        scan_string(source, at)
    } else if is_digit(character) || character == '-' {
        scan_number(source, at)
    } else if character == '{' {
        Scan { result: ResultView::Token(TokenView::OpeningBrace, point(here)), next: at + 1 }
    } else if character == '}' {
        Scan { result: ResultView::Token(TokenView::ClosingBrace, point(here)), next: at + 1 }
    } else if character == ',' {
        Scan { result: ResultView::Token(TokenView::Comma, point(here)), next: at + 1 }
    } else {
        Scan {
            result: failure(FailureKindView::UnexpectedCharacter(character), here),
            next: at + 1,
        }
    }
}

/// One step of a tokenizer that has read the first `from` characters and
/// has not failed: whitespace is skipped, then comes a token, a failure,
/// or the end of the source.
pub open spec fn scan(source: Seq<char>, from: int) -> Scan {
    let at = skip_whitespace(source, from);
    if at >= source.len() {
        Scan { result: ResultView::End, next: source.len() as int }
    } else {
        scan_token(source, at)
    }
}

/// Everything that a tokenizer yields before its first `End`, once it has
/// read the first `from` characters: tokens, and at most one failure, which
/// is then the last result.
pub open spec fn results_from(source: Seq<char>, from: int) -> Seq<ResultView>
    decreases source.len() - from,
    when 0 <= from <= source.len()
    via results_from_advance
{
    let step = scan(source, from);
    match step.result {
        ResultView::End => Seq::empty(),
        ResultView::Failure(_) => seq![step.result],
        ResultView::Token(_, _) => seq![step.result] + results_from(source, step.next),
    }
}

#[via_fn]
proof fn results_from_advance(source: Seq<char>, from: int) {
    lemma_scan_advances(source, from);
}

/// Everything that tokenizing `source` yields before its first `End`.
pub open spec fn tokenize(source: Seq<char>) -> Seq<ResultView> {
    results_from(source, 0)
}

/// Unescaping goes part by part, unless the cut would part a backslash
/// from the quotation mark after it.
pub proof fn lemma_unescape_append(first: Seq<char>, second: Seq<char>)
    requires
        first.len() == 0 || first.last() != '\\' || second.len() == 0 || second[0] != '"',
    ensures
        unescape(first + second) == unescape(first) + unescape(second),
    decreases first.len(),
{
    let whole = first + second;
    if first.len() == 0 {
        assert(whole == second);
    } else if first[0] == '\\' && first.len() >= 2 && first[1] == '"' {
        assert(whole.skip(2) == first.skip(2) + second);
        lemma_unescape_append(first.skip(2), second);
    } else {
        assert(whole.skip(1) == first.skip(1) + second);
        lemma_unescape_append(first.skip(1), second);
    }
}

/// The value of a run of digits is at least the value of each run that it
/// starts with.
pub proof fn lemma_digits_value_prefix(digits: Seq<char>, count: int)
    requires
        all_digits(digits),
        0 <= count <= digits.len(),
    ensures
        digits_value(digits.take(count)) <= digits_value(digits),
    decreases digits.len(),
{
    if count == digits.len() {
        assert(digits.take(count) == digits);
    } else {
        assert(digits.drop_last().take(count) == digits.take(count));
        lemma_digits_value_prefix(digits.drop_last(), count);
    }
}

/// A position never runs ahead of the number of characters read.
pub proof fn lemma_position_bounds(source: Seq<char>, count: int)
    requires
        0 <= count,
    ensures
        position_after(source, count).line <= count,
        position_after(source, count).column <= count,
    decreases count,
{
    if count > 0 {
        lemma_position_bounds(source, count - 1);
    }
}

/// A character takes at most four bytes.
pub proof fn lemma_byte_index_bounds(source: Seq<char>, count: int)
    requires
        0 <= count,
    ensures
        byte_index(source, count) <= 4 * count,
    decreases count,
{
    if count > 0 {
        lemma_byte_index_bounds(source, count - 1);
    }
}

/// Skipping whitespace stops inside the source, after whitespace only, and
/// at a character that is none.
pub proof fn lemma_skip_whitespace(source: Seq<char>, from: int)
    requires
        0 <= from <= source.len(),
    ensures
        from <= skip_whitespace(source, from) <= source.len(),
        forall|i: int|
            from <= i < skip_whitespace(source, from) ==> is_whitespace(#[trigger] source[i]),
        skip_whitespace(source, from) < source.len() ==> !is_whitespace(
            source[skip_whitespace(source, from)],
        ),
    decreases source.len() - from,
{
    if from < source.len() && is_whitespace(source[from]) {
        lemma_skip_whitespace(source, from + 1);
    }
}

/// A name stops inside the source, after name characters only.
pub proof fn lemma_name_stop(source: Seq<char>, from: int)
    requires
        0 <= from <= source.len(),
    ensures
        from <= name_stop(source, from) <= source.len(),
        forall|i: int|
            from <= i < name_stop(source, from) ==> is_name_character(#[trigger] source[i])
                && !followed_by_comma(source, i),
        name_stop(source, from) < source.len() ==> followed_by_comma(
            source,
            name_stop(source, from),
        ) || !is_name_character(source[name_stop(source, from)]),
    decreases source.len() - from,
{
    if from < source.len() && !followed_by_comma(source, from) && is_name_character(source[from]) {
        lemma_name_stop(source, from + 1);
    }
}

/// A run of digits ends inside the source, after digits only.
pub proof fn lemma_digits_end(source: Seq<char>, from: int)
    requires
        0 <= from <= source.len(),
    ensures
        from <= digits_end(source, from) <= source.len(),
        forall|i: int| from <= i < digits_end(source, from) ==> is_digit(#[trigger] source[i]),
        digits_end(source, from) < source.len() ==> !is_digit(source[digits_end(source, from)]),
    decreases source.len() - from,
{
    if from < source.len() && is_digit(source[from]) {
        lemma_digits_end(source, from + 1);
    }
}

/// Where a string body ends lies inside the source.
pub proof fn lemma_string_end(source: Seq<char>, from: int)
    requires
        0 <= from <= source.len(),
    ensures
        match string_end(source, from) {
            StringEnd::Closed(close) => from <= close < source.len() && source[close] == '"',
            StringEnd::UnknownEscape(slash) => from <= slash && slash + 1 < source.len()
                && source[slash] == '\\' && source[slash + 1] != '"',
            StringEnd::UnfinishedEscape => from < source.len() && source.last() == '\\',
            StringEnd::Unclosed => true,
        },
    decreases source.len() - from,
{
    if from < source.len() && source[from] != '"' {
        if source[from] == '\\' {
            if from + 1 < source.len() && source[from + 1] == '"' {
                lemma_string_end(source, from + 2);
            }
        } else {
            lemma_string_end(source, from + 1);
        }
    }
}

/// A step never goes back, never leaves the source, and reads at least one
/// character whenever it yields a token.
pub proof fn lemma_scan_advances(source: Seq<char>, from: int)
    requires
        0 <= from <= source.len(),
    ensures
        from <= scan(source, from).next <= source.len(),
        scan(source, from).result is Token ==> from < scan(source, from).next,
{
    lemma_skip_whitespace(source, from);
    let at = skip_whitespace(source, from);
    if at < source.len() {
        lemma_name_stop(source, at);
        lemma_string_end(source, at + 1);
        lemma_digits_end(source, at + 1);
    }
}

/// The results to come start with the next step's result, and go on
/// after a token with what comes after that step; nothing comes after a
/// failure or at the end of the source.
pub proof fn lemma_results_step(source: Seq<char>, from: int)
    requires
        0 <= from <= source.len(),
    ensures
        scan(source, from).result is Token ==> results_from(source, from) == seq![
            scan(source, from).result,
        ] + results_from(source, scan(source, from).next),
        scan(source, from).result is Failure ==> results_from(source, from) == seq![
            scan(source, from).result,
        ],
        scan(source, from).result is End ==> results_from(source, from) == Seq::<
            ResultView,
        >::empty() && results_from(source, scan(source, from).next) == Seq::<ResultView>::empty(),
{
    lemma_scan_advances(source, from);
    if scan(source, from).result is End {
        lemma_skip_whitespace(source, from);
    }
}

} // verus!

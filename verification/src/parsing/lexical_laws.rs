//! What holds of the tokenizer on whole classes of sources: theorems over
//! the lexical structure that the tokenizer is proved to follow.

use vstd::prelude::*;
use crate::parsing::scanning::{
    digits_end, escape, failure, followed_by_comma, is_letter, is_name_character, is_whitespace,
    lemma_digits_end, lemma_name_stop, lemma_results_step, lemma_scan_advances,
    lemma_skip_whitespace, lemma_string_end, name_stop, point, position_after,
    position_past_end, results_from, scan, scan_name, skip_whitespace, string_end, tokenize,
    unescape, word_token, StringEnd,
};
use crate::parsing::token_stream::{FailureKindView, Position, ResultView, Span, TokenView};

verus! {

/// Whether every character of the source is an ASCII letter.
pub open spec fn all_letters(source: Seq<char>) -> bool {
    forall|i: int| 0 <= i < source.len() ==> is_letter(#[trigger] source[i])
}

proof fn lemma_letters_name_stop(source: Seq<char>, from: int)
    requires
        all_letters(source),
        0 <= from <= source.len(),
    ensures
        name_stop(source, from) == source.len(),
    decreases source.len() - from,
{
    if from < source.len() {
        assert(is_letter(source[from]));
        if from + 1 < source.len() {
            assert(is_letter(source[from + 1]));
        }
        lemma_letters_name_stop(source, from + 1);
    }
}

proof fn lemma_letters_position(source: Seq<char>, count: int)
    requires
        all_letters(source),
        0 <= count <= source.len(),
    ensures
        position_after(source, count) == (Position { line: 0, column: count as nat }),
    decreases count,
{
    if count > 0 {
        lemma_letters_position(source, count - 1);
    }
}

/// A source that consists of ASCII letters alone, and of at least one,
/// gives exactly one result: the keyword or name that the whole source
/// spells. It starts behind the first letter of the only line and ends
/// behind the end of the source.
pub proof fn lemma_letters_make_one_word(source: Seq<char>)
    requires
        source.len() > 0,
        all_letters(source),
    ensures
        tokenize(source) == seq![
            ResultView::Token(
                word_token(source),
                Span {
                    start: Position { line: 0, column: 1 },
                    end: Position { line: 0, column: source.len() + 1 },
                },
            ),
        ],
{
    lemma_letters_name_stop(source, 0);
    lemma_letters_position(source, 1);
    lemma_letters_position(source, source.len() as int);
    assert(source.subrange(0, source.len() as int) == source);
    lemma_results_step(source, 0);
}

proof fn lemma_escape_starts_without_quotation_mark(text: Seq<char>)
    requires
        text.len() > 0,
    ensures
        escape(text).len() > 0,
        escape(text)[0] != '"',
{
}

/// Reading what escaping wrote gives the text back, whatever the text.
pub proof fn lemma_unescape_escape(text: Seq<char>)
    ensures
        unescape(escape(text)) == text,
    decreases text.len(),
{
    if text.len() > 0 {
        let rest = text.skip(1);
        let raw = escape(text);
        lemma_unescape_escape(rest);
        if text[0] == '"' {
            assert(raw.skip(2) == escape(rest));
        } else {
            if rest.len() > 0 {
                lemma_escape_starts_without_quotation_mark(rest);
            }
            assert(raw.skip(1) == escape(rest));
        }
    }
}

/// Whether the text holds no backslash.
pub open spec fn without_backslash(text: Seq<char>) -> bool {
    forall|i: int| 0 <= i < text.len() ==> #[trigger] text[i] != '\\'
}

/// A text without backslashes reads as itself.
pub proof fn lemma_unescape_without_backslash(text: Seq<char>)
    requires
        without_backslash(text),
    ensures
        unescape(text) == text,
    decreases text.len(),
{
    if text.len() > 0 {
        let rest = text.skip(1);
        assert forall|i: int| 0 <= i < rest.len() implies #[trigger] rest[i] != '\\' by {
            assert(rest[i] == text[i + 1]);
        }
        lemma_unescape_without_backslash(rest);
    }
}

/// The text of a string literal that is closed holds no backslash, so that
/// reading it once more changes nothing; and escaping it gives the source
/// form of the literal back.
pub proof fn lemma_string_text_round_trip(source: Seq<char>, from: int)
    requires
        0 <= from <= source.len(),
        string_end(source, from) is Closed,
    ensures
        ({
            let raw = source.subrange(from, string_end(source, from)->Closed_0);
            &&& without_backslash(unescape(raw))
            &&& unescape(unescape(raw)) == unescape(raw)
            &&& escape(unescape(raw)) == raw
        }),
    decreases source.len() - from,
{
    lemma_string_end(source, from);
    let close = string_end(source, from)->Closed_0;
    let raw = source.subrange(from, close);
    if source[from] != '"' {
        let width: int = if source[from] == '\\' {
            2
        } else {
            1
        };
        lemma_string_end(source, from + width);
        lemma_string_text_round_trip(source, from + width);
        let rest = source.subrange(from + width, close);
        let text = unescape(raw);
        assert(raw.skip(width) == rest);
        assert(text.skip(1) == unescape(rest));
        assert forall|i: int| 0 <= i < text.len() implies #[trigger] text[i] != '\\' by {
            if i > 0 {
                assert(text[i] == unescape(rest)[i - 1]);
            }
        }
    }
    lemma_unescape_without_backslash(unescape(raw));
}

/// Whether the first position is the second or stands before it.
pub open spec fn not_behind(first: Position, second: Position) -> bool {
    first.line < second.line || (first.line == second.line && first.column <= second.column)
}

/// Reading on never leads back: the line never falls, and on one line the
/// column never falls.
pub proof fn lemma_positions_go_forward(source: Seq<char>, earlier: int, later: int)
    requires
        0 <= earlier <= later,
    ensures
        not_behind(position_after(source, earlier), position_after(source, later)),
    decreases later - earlier,
{
    if earlier < later {
        lemma_positions_go_forward(source, earlier, later - 1);
    }
}

/// The range of every token starts where it ends or before.
pub proof fn lemma_token_ranges_are_ordered(source: Seq<char>, from: int)
    requires
        0 <= from <= source.len(),
    ensures
        scan(source, from).result matches ResultView::Token(_, range) ==> not_behind(
            range.start,
            range.end,
        ),
{
    lemma_skip_whitespace(source, from);
    let at = skip_whitespace(source, from);
    if at < source.len() {
        lemma_name_stop(source, at);
        lemma_string_end(source, at + 1);
        lemma_digits_end(source, at + 1);
        lemma_positions_go_forward(source, at + 1, source.len() as int);
        lemma_positions_go_forward(source, at + 1, name_stop(source, at) + 1);
        lemma_positions_go_forward(source, at + 1, digits_end(source, at + 1));
        if string_end(source, at + 1) is Closed {
            lemma_positions_go_forward(
                source,
                at + 1,
                string_end(source, at + 1)->Closed_0 + 1,
            );
        }
    }
}

proof fn lemma_plain_body_is_unclosed(source: Seq<char>, from: int)
    requires
        0 <= from <= source.len(),
        forall|i: int|
            from <= i < source.len() ==> #[trigger] source[i] != '"' && source[i] != '\\',
    ensures
        string_end(source, from) == StringEnd::Unclosed,
    decreases source.len() - from,
{
    if from < source.len() {
        lemma_plain_body_is_unclosed(source, from + 1);
    }
}

/// A source that opens a string and holds neither a second quotation mark
/// nor a backslash gives exactly one result: the failure for an unclosed
/// string, behind the end of the source.
pub proof fn lemma_unclosed_string_fails_once(source: Seq<char>)
    requires
        source.len() > 0,
        source[0] == '"',
        forall|i: int| 1 <= i < source.len() ==> #[trigger] source[i] != '"' && source[i] != '\\',
    ensures
        tokenize(source) == seq![
            failure(FailureKindView::UnclosedString, position_past_end(source)),
        ],
{
    lemma_plain_body_is_unclosed(source, 1);
    lemma_results_step(source, 0);
}

/// Among the results that a tokenizer yields before its first `End`, a
/// failure can only be the last one: nothing but `End` follows a failure.
pub proof fn lemma_failure_is_last(source: Seq<char>, from: int)
    requires
        0 <= from <= source.len(),
    ensures
        forall|i: int|
            0 <= i < results_from(source, from).len() ==> !(#[trigger] results_from(
                source,
                from,
            )[i] is End) && (results_from(source, from)[i] is Failure ==> i == results_from(
                source,
                from,
            ).len() - 1),
    decreases source.len() - from,
{
    lemma_results_step(source, from);
    lemma_scan_advances(source, from);
    let step = scan(source, from);
    if step.result is Token {
        lemma_failure_is_last(source, step.next);
        let later = results_from(source, step.next);
        let all = results_from(source, from);
        assert forall|i: int| 0 <= i < all.len() implies !(#[trigger] all[i] is End) && (
        all[i] is Failure ==> i == all.len() - 1) by {
            if i > 0 {
                assert(all[i] == later[i - 1]);
            }
        }
    }
}

/// A name never holds a comma.
pub proof fn lemma_name_holds_no_comma(source: Seq<char>, from: int)
    requires
        0 <= from <= source.len(),
    ensures
        scan(source, from).result matches ResultView::Token(TokenView::Name(text), _)
            ==> !text.contains(','),
{
    lemma_skip_whitespace(source, from);
    let at = skip_whitespace(source, from);
    if at < source.len() && is_letter(source[at]) {
        lemma_name_stop(source, at);
        let stop = name_stop(source, at);
        let text = if stop >= source.len() {
            source.subrange(at, source.len() as int)
        } else if followed_by_comma(source, stop) {
            source.subrange(at, stop + 1)
        } else {
            source.subrange(at, stop)
        };
        assert forall|i: int| 0 <= i < text.len() implies text[i] != ',' by {
            if at + i < stop {
                assert(is_name_character(source[at + i]));
            } else if stop > at {
                assert(!followed_by_comma(source, stop - 1));
            }
        }
    }
}

/// A word with a comma right behind it ends with the character before the
/// comma, and the comma is the next token: it is neither taken into the
/// word nor lost.
pub proof fn lemma_comma_follows_the_word(source: Seq<char>, at: int)
    requires
        0 <= at < source.len(),
        is_letter(source[at]),
        followed_by_comma(source, name_stop(source, at)),
    ensures
        ({
            let stop = name_stop(source, at);
            &&& at <= stop
            &&& scan_name(source, at).result == ResultView::Token(
                word_token(source.subrange(at, stop + 1)),
                Span {
                    start: position_after(source, at + 1),
                    end: position_after(source, stop + 1),
                },
            )
            &&& !source.subrange(at, stop + 1).contains(',')
            &&& scan(source, scan_name(source, at).next).result == ResultView::Token(
                TokenView::Comma,
                point(position_after(source, stop + 2)),
            )
            &&& scan(source, scan_name(source, at).next).next == stop + 2
        }),
{
    lemma_name_stop(source, at);
    let stop = name_stop(source, at);
    let text = source.subrange(at, stop + 1);
    assert forall|i: int| 0 <= i < text.len() implies text[i] != ',' by {
        if at + i < stop {
            assert(is_name_character(source[at + i]));
        } else if stop > at {
            assert(!followed_by_comma(source, stop - 1));
        }
    }
}

} // verus!

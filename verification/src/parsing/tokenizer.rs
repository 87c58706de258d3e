//! The tokenizer: a cursor over the source text that yields one token per
//! call, with the place in the text where it was found.

use vstd::prelude::*;
use crate::parsing::integers::parse_integer;
use crate::parsing::scanning::{
    byte_index, digits_end, failure, integer_value, is_digit, is_letter, is_name_character,
    is_whitespace, lemma_byte_index_bounds, lemma_position_bounds, lemma_results_step,
    lemma_unescape_append, name_stop, position_after, position_past_end, results_from, scan,
    scan_name, scan_number, scan_string, scan_token, skip_whitespace, string_end, tokenize,
    unescape, utf8_width, word_token,
};
use crate::parsing::token_stream::{
    tail, FailureKindView, ResultView, SourceLocation, SourceLocationRange, Span, Token,
    TokenStream, TokenView, TokenizerFailure, TokenizerFailureKind, TokenizerResult,
};
use crate::text::characters_of;

verus! {

/// The longest source, in characters, that a tokenizer takes: lines,
/// columns and byte offsets of anything up to this length fit in 32 bits.
pub const MAX_SOURCE_LENGTH: usize = 0x3fff_ffff;

/// Whether `character` is ASCII whitespace.
pub fn is_ascii_whitespace(character: char) -> (whitespace: bool)
    ensures
        whitespace == is_whitespace(character),
{
    character == ' ' || character == '\t' || character == '\n' || character == '\x0C'
        || character == '\r'
}

/// Whether `character` is an ASCII letter.
pub fn is_ascii_alphabetic(character: char) -> (letter: bool)
    ensures
        letter == is_letter(character),
{
    (character >= 'a' && character <= 'z') || (character >= 'A' && character <= 'Z')
}

/// Whether `character` is an ASCII decimal digit.
pub fn is_ascii_digit(character: char) -> (digit: bool)
    ensures
        digit == is_digit(character),
{
    character >= '0' && character <= '9'
}

/// The number of bytes that `character` takes in UTF-8.
pub fn len_utf8(character: char) -> (width: usize)
    ensures
        width == utf8_width(character),
{
    let code: u32 = character as u32;
    if code < 0x80 {
        1
    } else if code < 0x800 {
        2
    } else if code < 0x1_0000 {
        3
    } else {
        4
    }
}

/// A tokenizer over one source text.
///
/// Once it has yielded a failure it yields `End` for good, whatever is
/// left of the text.
pub struct Tokenizer {
    characters: Vec<char>,
    position: usize,
    offset: usize,
    is_failed: bool,
    line: u32,
    column: u32,
}

impl Tokenizer {
    /// The source text.
    pub closed spec fn source(&self) -> Seq<char> {
        self.characters@
    }

    /// The number of characters read so far.
    pub closed spec fn consumed(&self) -> int {
        self.position as int
    }

    /// Whether a failure has been yielded.
    pub closed spec fn has_failed(&self) -> bool {
        self.is_failed
    }

    /// The counters agree with the number of characters read.
    pub closed spec fn counters_agree(&self) -> bool {
        &&& self.position <= self.characters.len() <= MAX_SOURCE_LENGTH
        &&& self.offset == byte_index(self.characters@, self.position as int)
        &&& self.line == position_after(self.characters@, self.position as int).line
        &&& self.column == position_after(self.characters@, self.position as int).column
    }

    pub fn new(data: &str) -> (tokenizer: Self)
        requires
            data@.len() <= MAX_SOURCE_LENGTH,
        ensures
            tokenizer.well_formed(),
            tokenizer.source() == data@,
            tokenizer.consumed() == 0,
            !tokenizer.has_failed(),
            tokenizer.pending() == tokenize(data@),
    {
        Tokenizer {
            characters: characters_of(data),
            position: 0,
            offset: 0,
            is_failed: false,
            line: 0,
            column: 0,
        }
    }

    /// The text between two places of the source.
    fn text_between(&self, from: usize, to: usize) -> (text: String)
        requires
            from <= to <= self.characters.len(),
        ensures
            text@ == self.characters@.subrange(from as int, to as int),
    {
        let mut text = String::new();
        let mut index = from;
        while index < to
            invariant
                from <= index <= to <= self.characters.len(),
                text@ == self.characters@.subrange(from as int, index as int),
            decreases to - index,
        {
            text.push(self.characters[index]);
            index += 1;
        }
        text
    }

    /// The token for a completed word: a keyword where the word is one,
    /// else a name.
    fn handle_name_or_keyword(&self, name: String, range: SourceLocationRange) -> (result:
        TokenizerResult)
        ensures
            result@ == ResultView::Token(word_token(name@), range@),
    {
        let word = name.as_str();
        let token = if *word == *"slide" {
            Token::KeywordSlide
        } else if *word == *"title" {
            Token::KeywordTitle
        } else if *word == *"metadata" {
            Token::KeywordMetadata
        } else if *word == *"style" {
            Token::KeywordStyle
        } else if *word == *"font" {
            Token::KeywordFont
        } else if *word == *"name" {
            Token::KeywordName
        } else if *word == *"path" {
            Token::KeywordPath
        } else if *word == *"weight" {
            Token::KeywordWeight
        } else if *word == *"italic" {
            Token::KeywordItalic
        } else {
            Token::Name(name)
        };
        TokenizerResult::Token(token, range)
    }

    /// The token for a completed integer literal, or the failure where the
    /// literal has no value; the failure stops the tokenizer for good.
    fn handle_integer(&mut self, from: usize, start: SourceLocation) -> (result: TokenizerResult)
        requires
            old(self).counters_agree(),
            from <= old(self).position,
        ensures
            final(self).characters == old(self).characters,
            final(self).position == old(self).position,
            final(self).counters_agree(),
            final(self).is_failed == old(self).is_failed || result is Failure,
            result is Failure ==> final(self).is_failed,
            ({
                let text = old(self).characters@.subrange(
                    from as int,
                    old(self).position as int,
                );
                let stop = position_after(old(self).characters@, old(self).position as int);
                result@ == match integer_value(text) {
                    Some(value) => ResultView::Token(
                        TokenView::Integer(value),
                        Span { start: start@, end: stop },
                    ),
                    None => failure(FailureKindView::InvalidIntegerValue(text), stop),
                }
            }),
    {
        let to = self.position;
        match parse_integer(&self.characters, from, to) {
            Some(value) => TokenizerResult::Token(
                Token::Integer(value),
                SourceLocationRange::new(start, self.current_location()),
            ),
            None => {
                let text = self.text_between(from, to);
                let location = self.current_location();
                self.fail(location, TokenizerFailureKind::InvalidIntegerValue(text))
            },
        }
    }

    /// Whether a name may hold `character`.
    fn is_name_character(&self, character: char) -> (allowed: bool)
        ensures
            allowed == is_name_character(character),
    {
        is_ascii_alphabetic(character) || is_ascii_digit(character) || character == '_'
            || character == '-'
    }

    /// Reads the next character, if one is left, and returns it with its
    /// byte offset.
    fn read_next(&mut self) -> (read: Option<(usize, char)>)
        requires
            old(self).counters_agree(),
        ensures
            final(self).counters_agree(),
            final(self).characters == old(self).characters,
            final(self).is_failed == old(self).is_failed,
            old(self).position < old(self).characters.len() ==> final(self).position == old(
                self,
            ).position + 1 && read == Some(
                (
                    byte_index(old(self).characters@, old(self).position as int) as usize,
                    old(self).characters@[old(self).position as int],
                ),
            ),
            old(self).position >= old(self).characters.len() ==> final(self).position == old(
                self,
            ).position && read is None,
    {
        if self.position < self.characters.len() {
            let character = self.characters[self.position];
            let index = self.offset;
            proof {
                lemma_position_bounds(self.characters@, self.position as int);
                lemma_byte_index_bounds(self.characters@, self.position as int);
            }
            self.position += 1;
            self.offset += len_utf8(character);
            if character == '\n' {
                self.line += 1;
                self.column = 0;
            } else {
                self.column += 1;
            }
            Some((index, character))
        } else {
            None
        }
    }

    /// The next character, if one is left, without reading it.
    fn peek(&self) -> (shown: Option<char>)
        requires
            self.counters_agree(),
        ensures
            self.position < self.characters.len() ==> shown == Some(
                self.characters@[self.position as int],
            ),
            self.position >= self.characters.len() ==> shown is None,
    {
        if self.position < self.characters.len() {
            Some(self.characters[self.position])
        } else {
            None
        }
    }

    /// Whether the next character is `what`.
    fn check_next(&self, what: char) -> (found: bool)
        requires
            self.counters_agree(),
        ensures
            found == (self.position < self.characters.len()
                && self.characters@[self.position as int] == what),
    {
        match self.peek() {
            Some(character) => character == what,
            None => false,
        }
    }

    /// Where the tokenizer stands.
    fn current_location(&self) -> (location: SourceLocation)
        requires
            self.counters_agree(),
        ensures
            location@ == position_after(self.characters@, self.position as int),
    {
        SourceLocation::new(self.line, self.column)
    }

    /// Where the tokenizer stands once it has looked for a character after
    /// the last one.
    fn location_past_end(&self) -> (location: SourceLocation)
        requires
            self.counters_agree(),
            self.position == self.characters.len(),
        ensures
            location@ == position_past_end(self.characters@),
    {
        proof {
            lemma_position_bounds(self.characters@, self.position as int);
        }
        SourceLocation::new(self.line, self.column + 1)
    }

    /// Yields a failure and stops the tokenizer for good.
    fn fail(&mut self, location: SourceLocation, kind: TokenizerFailureKind) -> (result:
        TokenizerResult)
        ensures
            final(self).characters == old(self).characters,
            final(self).position == old(self).position,
            final(self).offset == old(self).offset,
            final(self).line == old(self).line,
            final(self).column == old(self).column,
            final(self).is_failed,
            result@ == failure(kind@, location@),
    {
        self.is_failed = true;
        TokenizerResult::Failure(TokenizerFailure::new(location, kind))
    }

    /// One step of a tokenizer that has not failed.
    fn step(&mut self) -> (result: TokenizerResult)
        requires
            old(self).counters_agree(),
            !old(self).is_failed,
        ensures
            final(self).counters_agree(),
            final(self).characters == old(self).characters,
            result@ == scan(old(self).characters@, old(self).position as int).result,
            final(self).position == scan(old(self).characters@, old(self).position as int).next,
            final(self).is_failed == (result is Failure),
    {
        loop
            invariant
                self.counters_agree(),
                self.characters == old(self).characters,
                !self.is_failed,
                skip_whitespace(self.characters@, self.position as int) == skip_whitespace(
                    old(self).characters@,
                    old(self).position as int,
                ),
            decreases self.characters.len() - self.position,
        {
            let at = self.position;
            match self.read_next() {
                None => {
                    return TokenizerResult::End;
                },
                Some((_, character)) => {
                    if !is_ascii_whitespace(character) {
                        return self.read_token(at, character);
                    }
                },
            }
        }
    }

    /// Reads the rest of the token whose first character, at index `at`,
    /// has just been read.
    fn read_token(&mut self, at: usize, character: char) -> (result: TokenizerResult)
        requires
            old(self).counters_agree(),
            !old(self).is_failed,
            old(self).position == at + 1,
            character == old(self).characters@[at as int],
        ensures
            final(self).counters_agree(),
            final(self).characters == old(self).characters,
            result@ == scan_token(old(self).characters@, at as int).result,
            final(self).position == scan_token(old(self).characters@, at as int).next,
            final(self).is_failed == (result is Failure),
    {
        if is_ascii_alphabetic(character) {
            self.read_name(at)
        } else if character == '"' {
            self.read_string(at)
        } else if is_ascii_digit(character) || character == '-' {
            self.read_number(at)
        } else if character == '{' {
            let range = SourceLocationRange::new_single(self.current_location());
            TokenizerResult::Token(Token::OpeningBrace, range)
        } else if character == '}' {
            let range = SourceLocationRange::new_single(self.current_location());
            TokenizerResult::Token(Token::ClosingBrace, range)
        } else if character == ',' {
            let range = SourceLocationRange::new_single(self.current_location());
            TokenizerResult::Token(Token::Comma, range)
        } else {
            let location = self.current_location();
            self.fail(location, TokenizerFailureKind::UnexpectedCharacter(character))
        }
    }

    /// Reads the rest of the word whose first letter, at index `at`, has
    /// just been read.
    fn read_name(&mut self, at: usize) -> (result: TokenizerResult)
        requires
            old(self).counters_agree(),
            !old(self).is_failed,
            old(self).position == at + 1,
            is_letter(old(self).characters@[at as int]),
        ensures
            final(self).counters_agree(),
            final(self).characters == old(self).characters,
            result@ == scan_name(old(self).characters@, at as int).result,
            final(self).position == scan_name(old(self).characters@, at as int).next,
            final(self).is_failed == (result is Failure),
    {
        let start = self.current_location();
        if self.check_next(',') {
            let name = self.text_between(at, self.position);
            return self.handle_name_or_keyword(name, SourceLocationRange::new(start, start));
        }
        loop
            invariant
                self.counters_agree(),
                self.characters == old(self).characters,
                !self.is_failed,
                at < self.position,
                start@ == position_after(self.characters@, at + 1),
                name_stop(self.characters@, at as int) == name_stop(
                    self.characters@,
                    self.position as int,
                ),
            decreases self.characters.len() - self.position,
        {
            let stop = self.position;
            match self.read_next() {
                None => {
                    let name = self.text_between(at, stop);
                    let range = SourceLocationRange::new(start, self.location_past_end());
                    return self.handle_name_or_keyword(name, range);
                },
                Some((index, character)) => {
                    if self.check_next(',') {
                        let name = self.text_between(at, self.position);
                        let range = SourceLocationRange::new(start, self.current_location());
                        return self.handle_name_or_keyword(name, range);
                    }
                    if is_ascii_whitespace(character) {
                        let name = self.text_between(at, stop);
                        let range = SourceLocationRange::new(start, self.current_location());
                        return self.handle_name_or_keyword(name, range);
                    }
                    if !self.is_name_character(character) {
                        let location = self.current_location();
                        return self.fail(
                            location,
                            TokenizerFailureKind::UnexpectedCharacterInName { index, character },
                        );
                    }
                },
            }
        }
    }

    /// Reads the rest of the string literal whose opening quotation mark,
    /// at index `at`, has just been read.
    fn read_string(&mut self, at: usize) -> (result: TokenizerResult)
        requires
            old(self).counters_agree(),
            !old(self).is_failed,
            old(self).position == at + 1,
        ensures
            final(self).counters_agree(),
            final(self).characters == old(self).characters,
            result@ == scan_string(old(self).characters@, at as int).result,
            final(self).position == scan_string(old(self).characters@, at as int).next,
            final(self).is_failed == (result is Failure),
    {
        let start = self.current_location();
        let mut text = String::new();
        loop
            invariant
                self.counters_agree(),
                self.characters == old(self).characters,
                !self.is_failed,
                at < self.position,
                start@ == position_after(self.characters@, at + 1),
                string_end(self.characters@, at + 1) == string_end(
                    self.characters@,
                    self.position as int,
                ),
                text@ == unescape(self.characters@.subrange(at + 1, self.position as int)),
            decreases self.characters.len() - self.position,
        {
            let ghost before = self.position as int;
            let ghost raw = self.characters@.subrange(at + 1, before);
            match self.read_next() {
                None => {
                    let location = self.location_past_end();
                    return self.fail(location, TokenizerFailureKind::UnclosedString);
                },
                Some((_, character)) => {
                    if character == '\\' {
                        match self.peek() {
                            Some(escaped) => {
                                if escaped == '"' {
                                    self.read_next();
                                    text.push('"');
                                    proof {
                                        lemma_unescape_append(raw, seq!['\\', '"']);
                                        assert(unescape(seq!['\\', '"']) == seq!['"']) by {
                                            reveal_with_fuel(unescape, 2);
                                        }
                                        assert(self.characters@.subrange(at + 1, before + 2) == raw
                                            + seq!['\\', '"']);
                                    }
                                } else {
                                    let location = self.current_location();
                                    return self.fail(
                                        location,
                                        TokenizerFailureKind::UnknownEscapeSequence(escaped),
                                    );
                                }
                            },
                            None => {
                                let location = self.current_location();
                                return self.fail(
                                    location,
                                    TokenizerFailureKind::UnfinishedEscapeSequence,
                                );
                            },
                        }
                    } else if character == '"' {
                        let range = SourceLocationRange::new(start, self.current_location());
                        return TokenizerResult::Token(Token::String(text), range);
                    } else {
                        text.push(character);
                        proof {
                            lemma_unescape_append(raw, seq![character]);
                            assert(unescape(seq![character]) == seq![character]) by {
                                reveal_with_fuel(unescape, 2);
                            }
                            assert(self.characters@.subrange(at + 1, before + 1) == raw
                                + seq![character]);
                        }
                    }
                },
            }
        }
    }

    /// Reads the rest of the integer literal whose first character, at
    /// index `at`, has just been read.
    fn read_number(&mut self, at: usize) -> (result: TokenizerResult)
        requires
            old(self).counters_agree(),
            !old(self).is_failed,
            old(self).position == at + 1,
        ensures
            final(self).counters_agree(),
            final(self).characters == old(self).characters,
            result@ == scan_number(old(self).characters@, at as int).result,
            final(self).position == scan_number(old(self).characters@, at as int).next,
            final(self).is_failed == (result is Failure),
    {
        let start = self.current_location();
        loop
            invariant
                self.counters_agree(),
                self.characters == old(self).characters,
                !self.is_failed,
                at < self.position,
                start@ == position_after(self.characters@, at + 1),
                digits_end(self.characters@, at + 1) == digits_end(
                    self.characters@,
                    self.position as int,
                ),
            decreases self.characters.len() - self.position,
        {
            match self.peek() {
                Some(character) => {
                    if is_ascii_digit(character) {
                        self.read_next();
                    } else {
                        return self.handle_integer(at, start);
                    }
                },
                None => {
                    return self.handle_integer(at, start);
                },
            }
        }
    }
}

impl TokenStream for Tokenizer {
    open spec fn well_formed(&self) -> bool {
        self.counters_agree()
    }

    open spec fn pending(&self) -> Seq<ResultView> {
        if self.has_failed() {
            Seq::empty()
        } else {
            results_from(self.source(), self.consumed())
        }
    }

    /// Skips whitespace, then yields the token that comes next, the failure
    /// that it runs into, or `End` at the end of the source and after a
    /// failure.
    fn next(&mut self) -> (result: TokenizerResult)
        ensures
            final(self).source() == old(self).source(),
            old(self).has_failed() ==> result is End && final(self).consumed() == old(
                self,
            ).consumed() && final(self).has_failed(),
            !old(self).has_failed() ==> result@ == scan(
                old(self).source(),
                old(self).consumed(),
            ).result && final(self).consumed() == scan(
                old(self).source(),
                old(self).consumed(),
            ).next && final(self).has_failed() == (result is Failure),
    {
        if self.is_failed {
            return TokenizerResult::End;
        }
        proof {
            lemma_results_step(self.characters@, self.position as int);
        }
        let result = self.step();
        result
    }
}

} // verus!

//! The vocabulary shared by the tokenizer and the parser: source positions,
//! tokens, tokenizer results, and streams of them.

use vstd::prelude::*;
use crate::parsing::integers::{decimal, decimal_text};
use crate::text::{debug_quoted, quote, tuple_variant_text};

verus! {

/// Mathematical model of a [`SourceLocation`]: a zero-based line and the
/// number of characters read on that line.
pub struct Position {
    pub line: nat,
    pub column: nat,
}

/// Mathematical model of a [`SourceLocationRange`].
pub struct Span {
    pub start: Position,
    pub end: Position,
}

/// Mathematical model of a [`Token`].
pub enum TokenView {
    Name(Seq<char>),
    String(Seq<char>),
    Integer(int),
    OpeningBrace,
    ClosingBrace,
    Comma,
    KeywordSlide,
    KeywordTitle,
    KeywordMetadata,
    KeywordStyle,
    KeywordFont,
    KeywordName,
    KeywordPath,
    KeywordWeight,
    KeywordItalic,
}

/// Mathematical model of a [`TokenizerFailureKind`].
pub enum FailureKindView {
    UnexpectedCharacterInName { index: nat, character: char },
    UnclosedString,
    UnknownEscapeSequence(char),
    UnfinishedEscapeSequence,
    UnexpectedCharacter(char),
    InvalidIntegerValue(Seq<char>),
}

/// Mathematical model of a [`TokenizerFailure`].
pub struct FailureView {
    pub kind: FailureKindView,
    pub location: Position,
}

/// Mathematical model of a [`TokenizerResult`].
pub enum ResultView {
    Token(TokenView, Span),
    Failure(FailureView),
    End,
}

/// A place in the source text: the line, counted from 0, and the column,
/// which is the number of characters that the tokenizer has read on that
/// line when it stands there. The first character of a line is thus left
/// behind at column 1, and a line feed at column 0 of the next line.
#[derive(Debug, Eq, PartialEq, Copy, Clone, Ord, PartialOrd)]
pub struct SourceLocation {
    line: u32,
    column: u32,
}

impl View for SourceLocation {
    type V = Position;

    closed spec fn view(&self) -> Position {
        Position { line: self.line as nat, column: self.column as nat }
    }
}

impl SourceLocation {
    pub fn new(line: u32, column: u32) -> (location: Self)
        ensures
            location@ == (Position { line: line as nat, column: column as nat }),
    {
        Self { line, column }
    }
}

/// A stretch of the source text, from `start` to `end`. The range of a
/// token goes from the place behind its first character to the place where
/// the tokenizer stood when it yielded the token.
#[derive(Debug, Eq, PartialEq, Copy, Clone)]
pub struct SourceLocationRange(SourceLocation, SourceLocation);

impl View for SourceLocationRange {
    type V = Span;

    closed spec fn view(&self) -> Span {
        Span { start: self.0@, end: self.1@ }
    }
}

impl SourceLocationRange {
    pub fn new(start: SourceLocation, end: SourceLocation) -> (range: Self)
        ensures
            range@ == (Span { start: start@, end: end@ }),
    {
        Self(start, end)
    }

    pub fn new_single(single: SourceLocation) -> (range: Self)
        ensures
            range@ == (Span { start: single@, end: single@ }),
    {
        Self(single, single)
    }
}

/// The smallest classified unit of the source text.
#[derive(Eq, PartialEq, Debug)]
pub enum Token {
    Name(String),
    String(String),
    Integer(i128),
    OpeningBrace,
    ClosingBrace,
    Comma,
    KeywordSlide,
    KeywordTitle,
    KeywordMetadata,
    KeywordStyle,
    KeywordFont,
    KeywordName,
    KeywordPath,
    KeywordWeight,
    KeywordItalic,
}

impl View for Token {
    type V = TokenView;

    open spec fn view(&self) -> TokenView {
        match self {
            Token::Name(text) => TokenView::Name(text@),
            Token::String(text) => TokenView::String(text@),
            Token::Integer(value) => TokenView::Integer(*value as int),
            Token::OpeningBrace => TokenView::OpeningBrace,
            Token::ClosingBrace => TokenView::ClosingBrace,
            Token::Comma => TokenView::Comma,
            Token::KeywordSlide => TokenView::KeywordSlide,
            Token::KeywordTitle => TokenView::KeywordTitle,
            Token::KeywordMetadata => TokenView::KeywordMetadata,
            Token::KeywordStyle => TokenView::KeywordStyle,
            Token::KeywordFont => TokenView::KeywordFont,
            Token::KeywordName => TokenView::KeywordName,
            Token::KeywordPath => TokenView::KeywordPath,
            Token::KeywordWeight => TokenView::KeywordWeight,
            Token::KeywordItalic => TokenView::KeywordItalic,
        }
    }
}

/// The text that debug formatting makes of a token: the name of its kind,
/// and in round brackets what it holds, where it holds something.
pub open spec fn token_text(token: TokenView) -> Seq<char> {
    match token {
        TokenView::Name(text) => "Name"@ + seq!['('] + debug_quoted(text) + seq![')'],
        TokenView::String(text) => "String"@ + seq!['('] + debug_quoted(text) + seq![')'],
        TokenView::Integer(value) => "Integer"@ + seq!['('] + decimal(value) + seq![')'],
        TokenView::OpeningBrace => "OpeningBrace"@,
        TokenView::ClosingBrace => "ClosingBrace"@,
        TokenView::Comma => "Comma"@,
        TokenView::KeywordSlide => "KeywordSlide"@,
        TokenView::KeywordTitle => "KeywordTitle"@,
        TokenView::KeywordMetadata => "KeywordMetadata"@,
        TokenView::KeywordStyle => "KeywordStyle"@,
        TokenView::KeywordFont => "KeywordFont"@,
        TokenView::KeywordName => "KeywordName"@,
        TokenView::KeywordPath => "KeywordPath"@,
        TokenView::KeywordWeight => "KeywordWeight"@,
        TokenView::KeywordItalic => "KeywordItalic"@,
    }
}

impl Token {
    /// Whether the two tokens are of one kind and hold the same.
    pub fn same_as(&self, other: &Token) -> (same: bool)
        ensures
            same == (self@ == other@),
    {
        match (self, other) {
            (Token::Name(mine), Token::Name(theirs)) => *mine == *theirs,
            (Token::String(mine), Token::String(theirs)) => *mine == *theirs,
            (Token::Integer(mine), Token::Integer(theirs)) => *mine == *theirs,
            (Token::OpeningBrace, Token::OpeningBrace) => true,
            (Token::ClosingBrace, Token::ClosingBrace) => true,
            (Token::Comma, Token::Comma) => true,
            (Token::KeywordSlide, Token::KeywordSlide) => true,
            (Token::KeywordTitle, Token::KeywordTitle) => true,
            (Token::KeywordMetadata, Token::KeywordMetadata) => true,
            (Token::KeywordStyle, Token::KeywordStyle) => true,
            (Token::KeywordFont, Token::KeywordFont) => true,
            (Token::KeywordName, Token::KeywordName) => true,
            (Token::KeywordPath, Token::KeywordPath) => true,
            (Token::KeywordWeight, Token::KeywordWeight) => true,
            (Token::KeywordItalic, Token::KeywordItalic) => true,
            _ => false,
        }
    }

    /// The text that debug formatting makes of the token.
    pub fn debug_text(&self) -> (text: String)
        ensures
            text@ == token_text(self@),
    {
        match self {
            Token::Name(name) => {
                let quoted = quote(name.as_str());
                tuple_variant_text("Name", quoted.as_str())
            },
            Token::String(string) => {
                let quoted = quote(string.as_str());
                tuple_variant_text("String", quoted.as_str())
            },
            Token::Integer(value) => {
                let number = decimal_text(*value);
                tuple_variant_text("Integer", number.as_str())
            },
            Token::OpeningBrace => String::from_str("OpeningBrace"),
            Token::ClosingBrace => String::from_str("ClosingBrace"),
            Token::Comma => String::from_str("Comma"),
            Token::KeywordSlide => String::from_str("KeywordSlide"),
            Token::KeywordTitle => String::from_str("KeywordTitle"),
            Token::KeywordMetadata => String::from_str("KeywordMetadata"),
            Token::KeywordStyle => String::from_str("KeywordStyle"),
            Token::KeywordFont => String::from_str("KeywordFont"),
            Token::KeywordName => String::from_str("KeywordName"),
            Token::KeywordPath => String::from_str("KeywordPath"),
            Token::KeywordWeight => String::from_str("KeywordWeight"),
            Token::KeywordItalic => String::from_str("KeywordItalic"),
        }
    }
}

/// Why the tokenizer gave up.
#[derive(Debug, Eq, PartialEq)]
pub enum TokenizerFailureKind {
    UnexpectedCharacterInName { index: usize, character: char },
    UnclosedString,
    UnknownEscapeSequence(char),
    UnfinishedEscapeSequence,
    UnexpectedCharacter(char),
    InvalidIntegerValue(String),
}

impl View for TokenizerFailureKind {
    type V = FailureKindView;

    open spec fn view(&self) -> FailureKindView {
        match self {
            TokenizerFailureKind::UnexpectedCharacterInName { index, character } => {
                FailureKindView::UnexpectedCharacterInName {
                    index: *index as nat,
                    character: *character,
                }
            },
            TokenizerFailureKind::UnclosedString => FailureKindView::UnclosedString,
            TokenizerFailureKind::UnknownEscapeSequence(character) => {
                FailureKindView::UnknownEscapeSequence(*character)
            },
            TokenizerFailureKind::UnfinishedEscapeSequence => {
                FailureKindView::UnfinishedEscapeSequence
            },
            TokenizerFailureKind::UnexpectedCharacter(character) => {
                FailureKindView::UnexpectedCharacter(*character)
            },
            TokenizerFailureKind::InvalidIntegerValue(text) => {
                FailureKindView::InvalidIntegerValue(text@)
            },
        }
    }
}

impl Clone for TokenizerFailureKind {
    fn clone(&self) -> (copy: Self)
        ensures
            copy@ == self@,
    {
        match self {
            TokenizerFailureKind::UnexpectedCharacterInName { index, character } => {
                TokenizerFailureKind::UnexpectedCharacterInName {
                    index: *index,
                    character: *character,
                }
            },
            TokenizerFailureKind::UnclosedString => TokenizerFailureKind::UnclosedString,
            TokenizerFailureKind::UnknownEscapeSequence(character) => {
                TokenizerFailureKind::UnknownEscapeSequence(*character)
            },
            TokenizerFailureKind::UnfinishedEscapeSequence => {
                TokenizerFailureKind::UnfinishedEscapeSequence
            },
            TokenizerFailureKind::UnexpectedCharacter(character) => {
                TokenizerFailureKind::UnexpectedCharacter(*character)
            },
            TokenizerFailureKind::InvalidIntegerValue(text) => {
                TokenizerFailureKind::InvalidIntegerValue(text.clone())
            },
        }
    }
}

/// A tokenizer failure: what went wrong, and where the tokenizer stood.
#[derive(Debug, Eq, PartialEq)]
pub struct TokenizerFailure {
    kind: TokenizerFailureKind,
    location: SourceLocation,
}

impl View for TokenizerFailure {
    type V = FailureView;

    closed spec fn view(&self) -> FailureView {
        FailureView { kind: self.kind@, location: self.location@ }
    }
}

impl TokenizerFailure {
    pub fn new(location: SourceLocation, kind: TokenizerFailureKind) -> (failure: Self)
        ensures
            failure@ == (FailureView { kind: kind@, location: location@ }),
    {
        Self { location, kind }
    }
}

impl Clone for TokenizerFailure {
    fn clone(&self) -> (copy: Self)
        ensures
            copy@ == self@,
    {
        Self { kind: self.kind.clone(), location: self.location }
    }
}

/// What one step of a token stream yields.
#[derive(Debug, Eq, PartialEq)]
pub enum TokenizerResult {
    Token(Token, SourceLocationRange),
    Failure(TokenizerFailure),
    End,
}

impl View for TokenizerResult {
    type V = ResultView;

    open spec fn view(&self) -> ResultView {
        match self {
            TokenizerResult::Token(token, range) => ResultView::Token(token@, range@),
            TokenizerResult::Failure(failure) => ResultView::Failure(failure@),
            TokenizerResult::End => ResultView::End,
        }
    }
}

/// The result that a stream with `pending` results to come yields next:
/// its first one, or `End` once none is left.
pub open spec fn head(pending: Seq<ResultView>) -> ResultView {
    if pending.len() == 0 {
        ResultView::End
    } else {
        pending[0]
    }
}

/// What is still to come once the next result has been taken.
pub open spec fn tail(pending: Seq<ResultView>) -> Seq<ResultView> {
    if pending.len() == 0 {
        pending
    } else {
        pending.skip(1)
    }
}

/// A source of tokenizer results, read one at a time.
pub trait TokenStream {
    /// Whether the stream is in a state that `next` can start from.
    spec fn well_formed(&self) -> bool;

    /// The results that the coming calls of `next` yield, in order. Every
    /// call after them yields `End`.
    spec fn pending(&self) -> Seq<ResultView>;

    /// Yields the next result, or `End` once none is left.
    fn next(&mut self) -> (result: TokenizerResult)
        requires
            old(self).well_formed(),
        ensures
            final(self).well_formed(),
            result@ == head(old(self).pending()),
            final(self).pending() == tail(old(self).pending()),
    ;
}

/// The model of a list of results: the model of each, in order.
pub open spec fn views_of(results: Seq<TokenizerResult>) -> Seq<ResultView> {
    results.map_values(|result: TokenizerResult| result@)
}

/// A stream that has just been peeked at holds at least the peeked result.
pub open spec fn peeked(pending: Seq<ResultView>) -> Seq<ResultView> {
    if pending.len() == 0 {
        seq![ResultView::End]
    } else {
        pending
    }
}

/// One token of lookahead over any token stream.
pub struct PeekableTokenStream<'a, T: TokenStream> {
    token_stream: &'a mut T,
    peeked: Option<TokenizerResult>,
}

impl<'a, T: TokenStream> PeekableTokenStream<'a, T> {
    /// The result that has been fetched and not yet taken, if there is one.
    pub closed spec fn held(&self) -> Option<ResultView> {
        match self.peeked {
            Some(result) => Some(result@),
            None => None,
        }
    }

    /// What the stream underneath has still to yield.
    pub closed spec fn unfetched(&self) -> Seq<ResultView> {
        self.token_stream.pending()
    }

    /// What the stream underneath has still to yield once the stream has
    /// made sure, from the given state, that it holds a result.
    pub open spec fn unfetched_after_fetch(&self) -> Seq<ResultView> {
        if self.held() is Some {
            self.unfetched()
        } else {
            tail(self.unfetched())
        }
    }

    pub fn new(token_stream: &'a mut T) -> (stream: Self)
        requires
            old(token_stream).well_formed(),
        ensures
            stream.well_formed(),
            stream.held() is None,
            stream.unfetched() == old(token_stream).pending(),
            stream.pending() == old(token_stream).pending(),
    {
        PeekableTokenStream { token_stream, peeked: None }
    }

    /// Fetches the next result, unless one is held already, and shows it
    /// without taking it: the following `next` returns that same result,
    /// and a second `peek` fetches nothing.
    pub fn peek(&mut self) -> (result: Option<&TokenizerResult>)
        requires
            old(self).well_formed(),
        ensures
            final(self).well_formed(),
            result matches Some(shown) && shown@ == head(old(self).pending()),
            final(self).held() == Some(head(old(self).pending())),
            final(self).unfetched() == old(self).unfetched_after_fetch(),
            final(self).pending() == peeked(old(self).pending()),
    {
        if self.peeked.is_none() {
            let fetched = self.token_stream.next();
            self.peeked = Some(fetched);
        }
        self.peeked.as_ref()
    }
}

impl<'a, T: TokenStream> TokenStream for PeekableTokenStream<'a, T> {
    closed spec fn well_formed(&self) -> bool {
        self.token_stream.well_formed()
    }

    /// The result that is held, if one is, and then what the stream
    /// underneath has still to yield.
    open spec fn pending(&self) -> Seq<ResultView> {
        match self.held() {
            Some(result) => seq![result] + self.unfetched(),
            None => self.unfetched(),
        }
    }

    /// Yields the result that is held, if one is, and else fetches one.
    /// Nothing is held afterwards.
    fn next(&mut self) -> (result: TokenizerResult)
        ensures
            final(self).held() is None,
            final(self).unfetched() == old(self).unfetched_after_fetch(),
    {
        match self.peeked.take() {
            Some(held) => {
                held
            },
            None => self.token_stream.next(),
        }
    }
}

/// A token stream that replays a prepared list of results.
pub struct MockTokenStream {
    results: Vec<TokenizerResult>,
}

impl MockTokenStream {
    /// Moves the results out of `results`, which is left empty.
    pub fn new(results: &mut Vec<TokenizerResult>) -> (stream: Self)
        ensures
            stream.well_formed(),
            stream.pending() == views_of(old(results)@),
            final(results)@.len() == 0,
    {
        let mut taken: Vec<TokenizerResult> = Vec::new();
        core::mem::swap(results, &mut taken);
        MockTokenStream { results: taken }
    }
}

impl TokenStream for MockTokenStream {
    open spec fn well_formed(&self) -> bool {
        true
    }

    closed spec fn pending(&self) -> Seq<ResultView> {
        views_of(self.results@)
    }

    fn next(&mut self) -> (result: TokenizerResult) {
        if self.results.len() > 0 {
            let first = self.results.remove(0);
            first
        } else {
            TokenizerResult::End
        }
    }
}

} // verus!

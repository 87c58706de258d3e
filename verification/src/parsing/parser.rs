//! The parser: it takes the results of a token stream one by one and builds
//! the presentation that they describe, or says what stands in the way.

use vstd::prelude::*;
use vstd::std_specs::convert::FromSpecImpl;
use crate::parsing::grammar::{
    after, at, blocks, font, font_fields, font_of, is_token, lemma_after_step,
    lemma_font_shortens, lemma_style_shortens, metadata, no_fields, no_style, presentation,
    slide, style, style_fonts, unexpected, weight_of, FontFields, ParserErrorView,
};
use crate::parsing::token_stream::{
    head, tail, PeekableTokenStream, ResultView, SourceLocationRange, Token, TokenStream,
    TokenView, TokenizerFailure, TokenizerResult,
};
use crate::presentation::{
    font_views, slide_views, Font, FontView, Presentation, PresentationView, Slide, SlideView,
    Style, StyleError, StyleView,
};

verus! {

/// Why a token stream is no presentation.
#[derive(Debug, Eq, PartialEq)]
pub enum ParserError {
    /// A token stands where the grammar has no place for it.
    UnexpectedToken { actual: String, expected: String, location: SourceLocationRange },
    /// The stream ends where the grammar goes on.
    UnexpectedEndOfStream { expected: String },
    /// The tokenizer failed.
    TokenizerFailure(TokenizerFailure),
    /// The fonts of a style block make no style.
    InvalidStyleDefinition(StyleError),
    /// A font block closes without its name, path or weight.
    MissingRequiredField { field: String, location: SourceLocationRange },
}

impl View for ParserError {
    type V = ParserErrorView;

    open spec fn view(&self) -> ParserErrorView {
        match self {
            ParserError::UnexpectedToken { actual, expected, location } => {
                ParserErrorView::UnexpectedToken {
                    actual: actual@,
                    expected: expected@,
                    location: location@,
                }
            },
            ParserError::UnexpectedEndOfStream { expected } => {
                ParserErrorView::UnexpectedEndOfStream { expected: expected@ }
            },
            ParserError::TokenizerFailure(failure) => ParserErrorView::TokenizerFailure(failure@),
            ParserError::InvalidStyleDefinition(error) => {
                ParserErrorView::InvalidStyleDefinition(error@)
            },
            ParserError::MissingRequiredField { field, location } => {
                ParserErrorView::MissingRequiredField { field: field@, location: location@ }
            },
        }
    }
}

impl From<StyleError> for ParserError {
    fn from(style_error: StyleError) -> (error: Self) {
        ParserError::InvalidStyleDefinition(style_error)
    }
}

impl FromSpecImpl<StyleError> for ParserError {
    open spec fn obeys_from_spec() -> bool {
        true
    }

    open spec fn from_spec(style_error: StyleError) -> Self {
        ParserError::InvalidStyleDefinition(style_error)
    }
}

/// A parser over a token stream, with one token of lookahead.
pub struct Parser<'a, T: TokenStream> {
    token_stream: PeekableTokenStream<'a, T>,
}

/// The model of the style that has been read, if one has.
pub open spec fn style_model(latest: Option<Style>) -> Option<StyleView> {
    match latest {
        Some(made) => Some(made@),
        None => None,
    }
}

/// The model of a text that has been read, if one has.
pub open spec fn text_model(text: Option<String>) -> Option<Seq<char>> {
    match text {
        Some(text) => Some(text@),
        None => None,
    }
}

/// The model of the font fields that have been read.
pub open spec fn fields_model(
    name: Option<String>,
    path: Option<String>,
    weight: Option<i128>,
    italic: bool,
) -> FontFields {
    FontFields {
        name: text_model(name),
        path: text_model(path),
        weight: match weight {
            Some(value) => Some(value as int),
            None => None,
        },
        italic,
    }
}

/// The weight that an integer literal gives.
fn weight_from(value: i128) -> (weight: u32)
    ensures
        weight as nat == weight_of(value as int),
{
    let modulus: i128 = 0x1_0000_0000;
    let remainder = value % modulus;
    let wrapped = if remainder < 0 {
        remainder + modulus
    } else {
        remainder
    };
    wrapped as u32
}

impl<'a, T: TokenStream> Parser<'a, T> {
    /// Whether the parser can start from its token stream.
    pub closed spec fn well_formed(&self) -> bool {
        self.token_stream.well_formed()
    }

    /// The results that the parser has still to take.
    pub closed spec fn pending(&self) -> Seq<ResultView> {
        self.token_stream.pending()
    }

    pub fn new(token_stream: &'a mut T) -> (parser: Self)
        requires
            old(token_stream).well_formed(),
        ensures
            parser.well_formed(),
            parser.pending() == old(token_stream).pending(),
    {
        Parser { token_stream: PeekableTokenStream::new(token_stream) }
    }

    /// Parses a whole presentation: the metadata block, then slides and
    /// style blocks up to the end of the stream. The first error ends it.
    pub fn parse(&mut self) -> (parsed: Result<Presentation, ParserError>)
        requires
            old(self).well_formed(),
        ensures
            final(self).well_formed(),
            final(self).pending() == presentation(old(self).pending()).rest,
            match parsed {
                Ok(read) => presentation(old(self).pending()).outcome == Ok::<
                    _,
                    ParserErrorView,
                >(read@),
                Err(error) => presentation(old(self).pending()).outcome == Err::<
                    PresentationView,
                    _,
                >(error@),
            },
    {
        let mut slides: Vec<Slide> = Vec::new();
        let mut latest: Option<Style> = None;
        let title: String = self.parse_metadata()?;
        let ghost body = self.pending();
        assert(slide_views(slides@) =~= Seq::empty());
        loop
            invariant
                self.well_formed(),
                metadata(old(self).pending()).outcome == Ok::<_, ParserErrorView>(title@),
                metadata(old(self).pending()).rest == body,
                blocks(body, Seq::empty(), None) == blocks(
                    self.pending(),
                    slide_views(slides@),
                    style_model(latest),
                ),
            decreases self.pending().len(),
        {
            let ghost tokens = self.pending();
            let ghost read_slides = slide_views(slides@);
            proof {
                lemma_style_shortens(tokens);
            }
            match self.token_stream.peek() {
                None | Some(TokenizerResult::End) => {
                    let made = match latest {
                        Some(made) => made,
                        None => Style::empty(),
                    };
                    return Ok(Presentation::new(title, slides, made));
                },
                Some(TokenizerResult::Token(Token::KeywordSlide, _)) => {
                    let read = self.parse_slide()?;
                    slides.push(read);
                    assert(slide_views(slides@) == read_slides.push(read@));
                },
                Some(TokenizerResult::Token(Token::KeywordStyle, _)) => {
                    let read = self.parse_style()?;
                    latest = Some(read);
                },
                Some(result) => {
                    return Self::handle_invalid_result(
                        result,
                        String::from_str("KeywordSlide, KeywordStyle"),
                    );
                },
            }
        }
    }

    /// `"slide" STRING "{" "}"`.
    fn parse_slide(&mut self) -> (parsed: Result<Slide, ParserError>)
        requires
            old(self).well_formed(),
        ensures
            final(self).well_formed(),
            final(self).pending() == slide(old(self).pending()).rest,
            match parsed {
                Ok(read) => slide(old(self).pending()).outcome == Ok::<_, ParserErrorView>(read@),
                Err(error) => slide(old(self).pending()).outcome == Err::<SlideView, _>(error@),
            },
    {
        let ghost tokens = self.pending();
        proof {
            lemma_after_step(tokens, 0);
            lemma_after_step(tokens, 1);
            lemma_after_step(tokens, 2);
            lemma_after_step(tokens, 3);
        }
        self.consume(Token::KeywordSlide, "KeywordSlide")?;
        let slide_name = self.consume_string("String(slide_name)")?;
        self.consume(Token::OpeningBrace, "OpeningBrace")?;
        self.consume(Token::ClosingBrace, "ClosingBrace")?;
        Ok(Slide::new(slide_name))
    }

    /// `"metadata" "{" "title" STRING "}"`, which gives the title.
    fn parse_metadata(&mut self) -> (parsed: Result<String, ParserError>)
        requires
            old(self).well_formed(),
        ensures
            final(self).well_formed(),
            final(self).pending() == metadata(old(self).pending()).rest,
            match parsed {
                Ok(title) => metadata(old(self).pending()).outcome == Ok::<_, ParserErrorView>(
                    title@,
                ),
                Err(error) => metadata(old(self).pending()).outcome == Err::<Seq<char>, _>(
                    error@,
                ),
            },
    {
        let ghost tokens = self.pending();
        proof {
            lemma_after_step(tokens, 0);
            lemma_after_step(tokens, 1);
            lemma_after_step(tokens, 2);
            lemma_after_step(tokens, 3);
            lemma_after_step(tokens, 4);
        }
        self.consume(Token::KeywordMetadata, "KeywordMetadata")?;
        self.consume(Token::OpeningBrace, "OpeningBrace")?;
        self.consume(Token::KeywordTitle, "KeywordTitle")?;
        let title = self.consume_string("String(title)")?;
        self.consume(Token::ClosingBrace, "ClosingBrace")?;
        Ok(title)
    }

    /// `"style" "{" font* "}"`.
    fn parse_style(&mut self) -> (parsed: Result<Style, ParserError>)
        requires
            old(self).well_formed(),
        ensures
            final(self).well_formed(),
            final(self).pending() == style(old(self).pending()).rest,
            match parsed {
                Ok(read) => style(old(self).pending()).outcome == Ok::<_, ParserErrorView>(read@),
                Err(error) => style(old(self).pending()).outcome == Err::<StyleView, _>(error@),
            },
    {
        let mut fonts: Vec<Font> = Vec::new();
        let ghost tokens = self.pending();
        proof {
            lemma_after_step(tokens, 0);
            lemma_after_step(tokens, 1);
        }
        self.consume(Token::KeywordStyle, "KeywordStyle")?;
        self.consume(Token::OpeningBrace, "OpeningBrace")?;
        let ghost body = self.pending();
        assert(font_views(fonts@) =~= Seq::empty());
        loop
            invariant
                self.well_formed(),
                tokens == old(self).pending(),
                body == after(tokens, 2),
                is_token(at(tokens, 0), TokenView::KeywordStyle),
                is_token(at(tokens, 1), TokenView::OpeningBrace),
                style_fonts(body, Seq::empty()) == style_fonts(
                    self.pending(),
                    font_views(fonts@),
                ),
            decreases self.pending().len(),
        {
            let ghost left = self.pending();
            let ghost read_fonts = font_views(fonts@);
            proof {
                lemma_font_shortens(left);
                lemma_after_step(left, 0);
            }
            match self.token_stream.peek() {
                Some(TokenizerResult::Token(Token::KeywordFont, _)) => {
                    let read = self.parse_font()?;
                    fonts.push(read);
                    assert(font_views(fonts@) == read_fonts.push(read@));
                },
                Some(TokenizerResult::Token(Token::ClosingBrace, _)) => {
                    self.consume(Token::ClosingBrace, "ClosingBrace")?;
                    return match Style::new(fonts) {
                        Ok(made) => Ok(made),
                        Err(error) => Err(ParserError::from(error)),
                    };
                },
                Some(result) => {
                    return Self::handle_invalid_result(
                        result,
                        String::from_str("KeywordFont, ClosingBrace"),
                    );
                },
                None => {
                    return Self::handle_invalid_result(
                        &TokenizerResult::End,
                        String::from_str("KeywordFont, ClosingBrace"),
                    );
                },
            }
        }
    }

    /// `"font" "{" font_field* "}"`.
    fn parse_font(&mut self) -> (parsed: Result<Font, ParserError>)
        requires
            old(self).well_formed(),
        ensures
            final(self).well_formed(),
            final(self).pending() == font(old(self).pending()).rest,
            match parsed {
                Ok(read) => font(old(self).pending()).outcome == Ok::<_, ParserErrorView>(read@),
                Err(error) => font(old(self).pending()).outcome == Err::<FontView, _>(error@),
            },
    {
        let mut italic = false;
        let mut name: Option<String> = None;
        let mut path: Option<String> = None;
        let mut weight: Option<i128> = None;
        let ghost tokens = self.pending();
        proof {
            lemma_after_step(tokens, 0);
            lemma_after_step(tokens, 1);
        }
        self.consume(Token::KeywordFont, "KeywordFont")?;
        self.consume(Token::OpeningBrace, "OpeningBrace")?;
        loop
            invariant
                self.well_formed(),
                tokens == old(self).pending(),
                is_token(at(tokens, 0), TokenView::KeywordFont),
                is_token(at(tokens, 1), TokenView::OpeningBrace),
                font_fields(after(tokens, 2), no_fields()) == font_fields(
                    self.pending(),
                    fields_model(name, path, weight, italic),
                ),
            decreases self.pending().len(),
        {
            let ghost left = self.pending();
            proof {
                lemma_after_step(left, 0);
                lemma_after_step(left, 1);
                lemma_after_step(left, 2);
            }
            match self.token_stream.next() {
                TokenizerResult::Token(Token::KeywordName, _) => {
                    name = Some(self.consume_name("Name(font_name)")?);
                },
                TokenizerResult::Token(Token::KeywordPath, _) => {
                    path = Some(self.consume_string("String(font_path)")?);
                },
                TokenizerResult::Token(Token::KeywordWeight, _) => {
                    weight = Some(self.consume_integer("Integer(font_weight)")?);
                },
                TokenizerResult::Token(Token::KeywordItalic, _) => {
                    italic = true;
                },
                TokenizerResult::Token(Token::ClosingBrace, closing) => {
                    return Self::make_font(name, path, weight, italic, closing);
                },
                result => {
                    return Self::handle_invalid_result(
                        &result,
                        String::from_str(
                            "KeywordName, KeywordPath, KeywordWeight, KeywordItalic, ClosingBrace",
                        ),
                    );
                },
            }
            self.consume(Token::Comma, "Comma")?;
        }
    }

    /// The font that the fields of a font block make, or the error for the
    /// first required field that the block did not give.
    fn make_font(
        name: Option<String>,
        path: Option<String>,
        weight: Option<i128>,
        italic: bool,
        closing: SourceLocationRange,
    ) -> (made: Result<Font, ParserError>)
        ensures
            ({
                let fields = fields_model(name, path, weight, italic);
                match made {
                    Ok(read) => font_of(fields, closing@) == Ok::<_, ParserErrorView>(read@),
                    Err(error) => font_of(fields, closing@) == Err::<FontView, _>(error@),
                }
            }),
    {
        match name {
            None => Err(
                ParserError::MissingRequiredField {
                    field: String::from_str("name"),
                    location: closing,
                },
            ),
            Some(name) => match path {
                None => Err(
                    ParserError::MissingRequiredField {
                        field: String::from_str("path"),
                        location: closing,
                    },
                ),
                Some(path) => match weight {
                    None => Err(
                        ParserError::MissingRequiredField {
                            field: String::from_str("weight"),
                            location: closing,
                        },
                    ),
                    Some(weight) => Ok(Font::new(name, path, weight_from(weight), italic)),
                },
            },
        }
    }

    /// Takes the next result, which has to be the token `wanted`, and gives
    /// its place in the source.
    fn consume(&mut self, wanted: Token, expected: &str) -> (taken: Result<
        SourceLocationRange,
        ParserError,
    >)
        requires
            old(self).well_formed(),
        ensures
            final(self).well_formed(),
            final(self).pending() == tail(old(self).pending()),
            match taken {
                Ok(location) => head(old(self).pending()) == ResultView::Token(wanted@, location@),
                Err(error) => !is_token(head(old(self).pending()), wanted@) && error@
                    == unexpected(head(old(self).pending()), expected@),
            },
    {
        let result = self.token_stream.next();
        match result {
            TokenizerResult::Token(token, location) => {
                if token.same_as(&wanted) {
                    Ok(location)
                } else {
                    Self::handle_invalid_result(
                        &TokenizerResult::Token(token, location),
                        String::from_str(expected),
                    )
                }
            },
            other => Self::handle_invalid_result(&other, String::from_str(expected)),
        }
    }

    /// Takes the next result, which has to be a string, and gives its text.
    fn consume_string(&mut self, expected: &str) -> (taken: Result<String, ParserError>)
        requires
            old(self).well_formed(),
        ensures
            final(self).well_formed(),
            final(self).pending() == tail(old(self).pending()),
            match taken {
                Ok(text) => head(old(self).pending()) matches ResultView::Token(
                    TokenView::String(found),
                    _,
                ) && found == text@,
                Err(error) => !(head(old(self).pending()) matches ResultView::Token(
                    TokenView::String(_),
                    _,
                )) && error@ == unexpected(head(old(self).pending()), expected@),
            },
    {
        match self.token_stream.next() {
            TokenizerResult::Token(Token::String(text), _) => Ok(text),
            other => Self::handle_invalid_result(&other, String::from_str(expected)),
        }
    }

    /// Takes the next result, which has to be a name, and gives its text.
    fn consume_name(&mut self, expected: &str) -> (taken: Result<String, ParserError>)
        requires
            old(self).well_formed(),
        ensures
            final(self).well_formed(),
            final(self).pending() == tail(old(self).pending()),
            match taken {
                Ok(text) => head(old(self).pending()) matches ResultView::Token(
                    TokenView::Name(found),
                    _,
                ) && found == text@,
                Err(error) => !(head(old(self).pending()) matches ResultView::Token(
                    TokenView::Name(_),
                    _,
                )) && error@ == unexpected(head(old(self).pending()), expected@),
            },
    {
        match self.token_stream.next() {
            TokenizerResult::Token(Token::Name(text), _) => Ok(text),
            other => Self::handle_invalid_result(&other, String::from_str(expected)),
        }
    }

    /// Takes the next result, which has to be an integer, and gives its
    /// value.
    fn consume_integer(&mut self, expected: &str) -> (taken: Result<i128, ParserError>)
        requires
            old(self).well_formed(),
        ensures
            final(self).well_formed(),
            final(self).pending() == tail(old(self).pending()),
            match taken {
                Ok(value) => head(old(self).pending()) matches ResultView::Token(
                    TokenView::Integer(found),
                    _,
                ) && found == value,
                Err(error) => !(head(old(self).pending()) matches ResultView::Token(
                    TokenView::Integer(_),
                    _,
                )) && error@ == unexpected(head(old(self).pending()), expected@),
            },
    {
        match self.token_stream.next() {
            TokenizerResult::Token(Token::Integer(value), _) => Ok(value),
            other => Self::handle_invalid_result(&other, String::from_str(expected)),
        }
    }

    /// The error for a result that the grammar does not allow where it
    /// stands: never `Ok`.
    fn handle_invalid_result<TOk>(result: &TokenizerResult, expected: String) -> (invalid: Result<
        TOk,
        ParserError,
    >)
        ensures
            invalid matches Err(error) && error@ == unexpected(result@, expected@),
    {
        Err(
            match result {
                TokenizerResult::Token(token, location) => ParserError::UnexpectedToken {
                    actual: token.debug_text(),
                    expected,
                    location: *location,
                },
                TokenizerResult::Failure(error) => ParserError::TokenizerFailure(error.clone()),
                TokenizerResult::End => ParserError::UnexpectedEndOfStream { expected },
            },
        )
    }
}

} // verus!

//! The grammar of a presentation, as mathematics: what a sequence of
//! tokenizer results parses to, and what is left of it afterwards.
//!
//! ```text
//! presentation := metadata (slide | style)*
//! metadata     := "metadata" "{" "title" STRING "}"
//! slide        := "slide" STRING "{" "}"
//! style        := "style" "{" font* "}"
//! font         := "font" "{" font_field* "}"
//! font_field   := ("name" NAME | "path" STRING | "weight" INTEGER | "italic") ","
//! ```

use vstd::prelude::*;
use crate::parsing::token_stream::{
    head, peeked, tail, token_text, FailureView, ResultView, Span, TokenView,
};
use crate::presentation::{
    style_of, FontDescriptorView, FontView, PresentationView, SlideView, StyleErrorView, StyleView,
};

verus! {

/// Mathematical model of a parser error.
pub enum ParserErrorView {
    UnexpectedToken { actual: Seq<char>, expected: Seq<char>, location: Span },
    UnexpectedEndOfStream { expected: Seq<char> },
    TokenizerFailure(FailureView),
    InvalidStyleDefinition(StyleErrorView),
    MissingRequiredField { field: Seq<char>, location: Span },
}

/// What parsing one construct gives: the construct or an error, and the
/// results that are left for what comes next.
pub struct Parsed<T> {
    pub outcome: Result<T, ParserErrorView>,
    pub rest: Seq<ResultView>,
}

/// The result with the given index, or `End` behind the last one.
pub open spec fn at(tokens: Seq<ResultView>, index: int) -> ResultView {
    if 0 <= index < tokens.len() {
        tokens[index]
    } else {
        ResultView::End
    }
}

/// What is left once `count` results have been taken.
pub open spec fn after(tokens: Seq<ResultView>, count: int) -> Seq<ResultView> {
    if 0 <= count <= tokens.len() {
        tokens.skip(count)
    } else {
        Seq::empty()
    }
}

/// Whether the result is the given token.
pub open spec fn is_token(result: ResultView, token: TokenView) -> bool {
    result matches ResultView::Token(found, _) && found == token
}

/// The error for a result that the grammar does not allow where it stands:
/// a token is unexpected, a tokenizer failure is passed on, and the end of
/// the stream came too early. `expected` lists what could have stood there.
pub open spec fn unexpected(result: ResultView, expected: Seq<char>) -> ParserErrorView {
    match result {
        ResultView::Token(token, location) => ParserErrorView::UnexpectedToken {
            actual: token_text(token),
            expected,
            location,
        },
        ResultView::Failure(failure) => ParserErrorView::TokenizerFailure(failure),
        ResultView::End => ParserErrorView::UnexpectedEndOfStream { expected },
    }
}

/// Parsing stops at the result with the given index, which has been taken
/// and is not what the grammar expects.
pub open spec fn rejected<T>(tokens: Seq<ResultView>, index: int, expected: Seq<char>) -> Parsed<
    T,
> {
    Parsed { outcome: Err(unexpected(at(tokens, index), expected)), rest: after(tokens, index + 1) }
}

/// Parsing stops at the next result, which has been looked at but not
/// taken, and is not what the grammar expects.
pub open spec fn refused<T>(tokens: Seq<ResultView>, expected: Seq<char>) -> Parsed<T> {
    Parsed { outcome: Err(unexpected(at(tokens, 0), expected)), rest: peeked(tokens) }
}

/// `"metadata" "{" "title" STRING "}"`, which gives the title.
pub open spec fn metadata(tokens: Seq<ResultView>) -> Parsed<Seq<char>> {
    if !is_token(at(tokens, 0), TokenView::KeywordMetadata) {
        rejected(tokens, 0, "KeywordMetadata"@)
    } else if !is_token(at(tokens, 1), TokenView::OpeningBrace) {
        rejected(tokens, 1, "OpeningBrace"@)
    } else if !is_token(at(tokens, 2), TokenView::KeywordTitle) {
        rejected(tokens, 2, "KeywordTitle"@)
    } else {
        match at(tokens, 3) {
            ResultView::Token(TokenView::String(title), _) => {
                if !is_token(at(tokens, 4), TokenView::ClosingBrace) {
                    rejected(tokens, 4, "ClosingBrace"@)
                } else {
                    Parsed { outcome: Ok(title), rest: after(tokens, 5) }
                }
            },
            _ => rejected(tokens, 3, "String(title)"@),
        }
    }
}

/// `"slide" STRING "{" "}"`.
pub open spec fn slide(tokens: Seq<ResultView>) -> Parsed<SlideView> {
    if !is_token(at(tokens, 0), TokenView::KeywordSlide) {
        rejected(tokens, 0, "KeywordSlide"@)
    } else {
        match at(tokens, 1) {
            ResultView::Token(TokenView::String(name), _) => {
                if !is_token(at(tokens, 2), TokenView::OpeningBrace) {
                    rejected(tokens, 2, "OpeningBrace"@)
                } else if !is_token(at(tokens, 3), TokenView::ClosingBrace) {
                    rejected(tokens, 3, "ClosingBrace"@)
                } else {
                    Parsed { outcome: Ok(SlideView { name }), rest: after(tokens, 4) }
                }
            },
            _ => rejected(tokens, 1, "String(slide_name)"@),
        }
    }
}

/// What the fields of a font block have given so far.
pub struct FontFields {
    pub name: Option<Seq<char>>,
    pub path: Option<Seq<char>>,
    pub weight: Option<int>,
    pub italic: bool,
}

/// The fields of a font block of which none has been read.
pub open spec fn no_fields() -> FontFields {
    FontFields { name: None, path: None, weight: None, italic: false }
}

/// What may stand where a font field starts.
pub open spec fn field_alternatives() -> Seq<char> {
    "KeywordName, KeywordPath, KeywordWeight, KeywordItalic, ClosingBrace"@
}

/// `font_field* "}"`: the fields in any order, each with a comma after it,
/// up to the closing brace. A field that comes again replaces the earlier
/// one. Gives the fields and the place of the closing brace.
pub open spec fn font_fields(tokens: Seq<ResultView>, fields: FontFields) -> Parsed<
    (FontFields, Span),
>
    decreases tokens.len(),
{
    match at(tokens, 0) {
        ResultView::Token(TokenView::ClosingBrace, closing) => Parsed {
            outcome: Ok((fields, closing)),
            rest: after(tokens, 1),
        },
        ResultView::Token(TokenView::KeywordName, _) => match at(tokens, 1) {
            ResultView::Token(TokenView::Name(name), _) => {
                if !is_token(at(tokens, 2), TokenView::Comma) {
                    rejected(tokens, 2, "Comma"@)
                } else {
                    font_fields(after(tokens, 3), FontFields { name: Some(name), ..fields })
                }
            },
            _ => rejected(tokens, 1, "Name(font_name)"@),
        },
        ResultView::Token(TokenView::KeywordPath, _) => match at(tokens, 1) {
            ResultView::Token(TokenView::String(path), _) => {
                if !is_token(at(tokens, 2), TokenView::Comma) {
                    rejected(tokens, 2, "Comma"@)
                } else {
                    font_fields(after(tokens, 3), FontFields { path: Some(path), ..fields })
                }
            },
            _ => rejected(tokens, 1, "String(font_path)"@),
        },
        ResultView::Token(TokenView::KeywordWeight, _) => match at(tokens, 1) {
            ResultView::Token(TokenView::Integer(weight), _) => {
                if !is_token(at(tokens, 2), TokenView::Comma) {
                    rejected(tokens, 2, "Comma"@)
                } else {
                    font_fields(after(tokens, 3), FontFields { weight: Some(weight), ..fields })
                }
            },
            _ => rejected(tokens, 1, "Integer(font_weight)"@),
        },
        ResultView::Token(TokenView::KeywordItalic, _) => {
            if !is_token(at(tokens, 1), TokenView::Comma) {
                rejected(tokens, 1, "Comma"@)
            } else {
                font_fields(after(tokens, 2), FontFields { italic: true, ..fields })
            }
        },
        _ => rejected(tokens, 0, field_alternatives()),
    }
}

/// The weight that an integer literal gives: its value, cut down to 32
/// unsigned bits.
pub open spec fn weight_of(value: int) -> nat {
    (value % 0x1_0000_0000) as nat
}

/// The font that the fields of a font block make. Name, path and weight are
/// required: the first of them that is missing, in this order, is the
/// error, at the place of the closing brace.
pub open spec fn font_of(fields: FontFields, closing: Span) -> Result<FontView, ParserErrorView> {
    match (fields.name, fields.path, fields.weight) {
        (Some(name), Some(path), Some(weight)) => Ok(
            FontView {
                descriptor: FontDescriptorView {
                    name,
                    weight: weight_of(weight),
                    italic: fields.italic,
                },
                path,
            },
        ),
        (None, _, _) => Err(
            ParserErrorView::MissingRequiredField { field: "name"@, location: closing },
        ),
        (_, None, _) => Err(
            ParserErrorView::MissingRequiredField { field: "path"@, location: closing },
        ),
        _ => Err(ParserErrorView::MissingRequiredField { field: "weight"@, location: closing }),
    }
}

/// `"font" "{" font_field* "}"`.
pub open spec fn font(tokens: Seq<ResultView>) -> Parsed<FontView> {
    if !is_token(at(tokens, 0), TokenView::KeywordFont) {
        rejected(tokens, 0, "KeywordFont"@)
    } else if !is_token(at(tokens, 1), TokenView::OpeningBrace) {
        rejected(tokens, 1, "OpeningBrace"@)
    } else {
        let body = font_fields(after(tokens, 2), no_fields());
        match body.outcome {
            Ok((fields, closing)) => Parsed { outcome: font_of(fields, closing), rest: body.rest },
            Err(error) => Parsed { outcome: Err(error), rest: body.rest },
        }
    }
}

/// `font* "}"`: the font blocks of a style, up to its closing brace, after
/// the fonts that have been read already.
pub open spec fn style_fonts(tokens: Seq<ResultView>, fonts: Seq<FontView>) -> Parsed<
    Seq<FontView>,
>
    decreases tokens.len(),
    via style_fonts_shorten
{
    match at(tokens, 0) {
        ResultView::Token(TokenView::KeywordFont, _) => {
            let one = font(tokens);
            match one.outcome {
                Ok(read) => style_fonts(one.rest, fonts.push(read)),
                Err(error) => Parsed { outcome: Err(error), rest: one.rest },
            }
        },
        ResultView::Token(TokenView::ClosingBrace, _) => Parsed {
            outcome: Ok(fonts),
            rest: after(tokens, 1),
        },
        _ => refused(tokens, "KeywordFont, ClosingBrace"@),
    }
}

#[via_fn]
proof fn style_fonts_shorten(tokens: Seq<ResultView>, fonts: Seq<FontView>) {
    lemma_font_shortens(tokens);
}

/// `"style" "{" font* "}"`. Two fonts with one descriptor make the style
/// invalid.
pub open spec fn style(tokens: Seq<ResultView>) -> Parsed<StyleView> {
    if !is_token(at(tokens, 0), TokenView::KeywordStyle) {
        rejected(tokens, 0, "KeywordStyle"@)
    } else if !is_token(at(tokens, 1), TokenView::OpeningBrace) {
        rejected(tokens, 1, "OpeningBrace"@)
    } else {
        let body = style_fonts(after(tokens, 2), Seq::empty());
        match body.outcome {
            Ok(fonts) => Parsed {
                outcome: match style_of(fonts) {
                    Ok(made) => Ok(made),
                    Err(error) => Err(ParserErrorView::InvalidStyleDefinition(error)),
                },
                rest: body.rest,
            },
            Err(error) => Parsed { outcome: Err(error), rest: body.rest },
        }
    }
}

/// The style of a presentation that declares none.
pub open spec fn no_style() -> StyleView {
    StyleView { fonts: Seq::empty() }
}

/// `(slide | style)*` up to the end of the stream, after the slides and the
/// style that have been read already: gives all slides in order, and the
/// last style, or the empty one.
pub open spec fn blocks(
    tokens: Seq<ResultView>,
    slides: Seq<SlideView>,
    latest: Option<StyleView>,
) -> Parsed<(Seq<SlideView>, StyleView)>
    decreases tokens.len(),
    via blocks_shorten
{
    match at(tokens, 0) {
        ResultView::End => Parsed {
            outcome: Ok(
                (
                    slides,
                    match latest {
                        Some(made) => made,
                        None => no_style(),
                    },
                ),
            ),
            rest: peeked(tokens),
        },
        ResultView::Token(TokenView::KeywordSlide, _) => {
            let one = slide(tokens);
            match one.outcome {
                Ok(read) => blocks(one.rest, slides.push(read), latest),
                Err(error) => Parsed { outcome: Err(error), rest: one.rest },
            }
        },
        ResultView::Token(TokenView::KeywordStyle, _) => {
            let one = style(tokens);
            match one.outcome {
                Ok(read) => blocks(one.rest, slides, Some(read)),
                Err(error) => Parsed { outcome: Err(error), rest: one.rest },
            }
        },
        _ => refused(tokens, "KeywordSlide, KeywordStyle"@),
    }
}

#[via_fn]
proof fn blocks_shorten(
    tokens: Seq<ResultView>,
    slides: Seq<SlideView>,
    latest: Option<StyleView>,
) {
    lemma_style_shortens(tokens);
}

/// `metadata (slide | style)*`: a whole presentation.
pub open spec fn presentation(tokens: Seq<ResultView>) -> Parsed<PresentationView> {
    let front = metadata(tokens);
    match front.outcome {
        Ok(title) => {
            let body = blocks(front.rest, Seq::empty(), None);
            match body.outcome {
                Ok((slides, made)) => Parsed {
                    outcome: Ok(PresentationView { title, slides, style: made }),
                    rest: body.rest,
                },
                Err(error) => Parsed { outcome: Err(error), rest: body.rest },
            }
        },
        Err(error) => Parsed { outcome: Err(error), rest: front.rest },
    }
}

/// Taking the next result moves one place on.
pub proof fn lemma_after_step(tokens: Seq<ResultView>, count: int)
    requires
        0 <= count,
    ensures
        head(after(tokens, count)) == at(tokens, count),
        tail(after(tokens, count)) == after(tokens, count + 1),
        after(tokens, 0) == tokens,
{
}

/// The fields of a font block that end well take at least the closing
/// brace.
pub proof fn lemma_font_fields_shorten(tokens: Seq<ResultView>, fields: FontFields)
    ensures
        font_fields(tokens, fields).outcome is Ok ==> font_fields(tokens, fields).rest.len()
            < tokens.len(),
    decreases tokens.len(),
{
    match at(tokens, 0) {
        ResultView::Token(TokenView::KeywordName, _) => match at(tokens, 1) {
            ResultView::Token(TokenView::Name(name), _) => {
                if is_token(at(tokens, 2), TokenView::Comma) {
                    lemma_font_fields_shorten(
                        after(tokens, 3),
                        FontFields { name: Some(name), ..fields },
                    );
                }
            },
            _ => {},
        },
        ResultView::Token(TokenView::KeywordPath, _) => match at(tokens, 1) {
            ResultView::Token(TokenView::String(path), _) => {
                if is_token(at(tokens, 2), TokenView::Comma) {
                    lemma_font_fields_shorten(
                        after(tokens, 3),
                        FontFields { path: Some(path), ..fields },
                    );
                }
            },
            _ => {},
        },
        ResultView::Token(TokenView::KeywordWeight, _) => match at(tokens, 1) {
            ResultView::Token(TokenView::Integer(weight), _) => {
                if is_token(at(tokens, 2), TokenView::Comma) {
                    lemma_font_fields_shorten(
                        after(tokens, 3),
                        FontFields { weight: Some(weight), ..fields },
                    );
                }
            },
            _ => {},
        },
        ResultView::Token(TokenView::KeywordItalic, _) => {
            if is_token(at(tokens, 1), TokenView::Comma) {
                lemma_font_fields_shorten(after(tokens, 2), FontFields { italic: true, ..fields });
            }
        },
        _ => {},
    }
}

/// A font block that parses takes at least one result.
pub proof fn lemma_font_shortens(tokens: Seq<ResultView>)
    ensures
        font(tokens).outcome is Ok ==> font(tokens).rest.len() < tokens.len(),
{
    lemma_font_fields_shorten(after(tokens, 2), no_fields());
}

/// The font blocks of a style that parse take at least the closing brace.
pub proof fn lemma_style_fonts_shorten(tokens: Seq<ResultView>, fonts: Seq<FontView>)
    ensures
        style_fonts(tokens, fonts).outcome is Ok ==> style_fonts(tokens, fonts).rest.len()
            < tokens.len(),
    decreases tokens.len(),
{
    lemma_font_shortens(tokens);
    match at(tokens, 0) {
        ResultView::Token(TokenView::KeywordFont, _) => {
            let one = font(tokens);
            match one.outcome {
                Ok(read) => {
                    lemma_style_fonts_shorten(one.rest, fonts.push(read));
                },
                Err(_) => {},
            }
        },
        _ => {},
    }
}

/// A style block that parses takes at least one result.
pub proof fn lemma_style_shortens(tokens: Seq<ResultView>)
    ensures
        style(tokens).outcome is Ok ==> style(tokens).rest.len() < tokens.len(),
{
    lemma_style_fonts_shorten(after(tokens, 2), Seq::empty());
}

} // verus!

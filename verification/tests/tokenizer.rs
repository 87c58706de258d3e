use slideshow::parsing::token_stream::{
    SourceLocation, SourceLocationRange, Token, TokenStream, TokenizerFailure,
    TokenizerFailureKind, TokenizerResult,
};
use slideshow::parsing::tokenizer::{
    is_ascii_alphabetic, is_ascii_digit, is_ascii_whitespace, len_utf8, Tokenizer,
    MAX_SOURCE_LENGTH,
};

fn expect_tokens(source: &str, expected: Vec<Token>) {
    let mut tokenizer = Tokenizer::new(source);

    for expected_token in expected {
        let result = tokenizer.next();

        if let TokenizerResult::Token(token, _) = result {
            assert_eq!(token, expected_token);
        } else {
            panic!("Unexpected result: {:?}", result);
        }
    }

    assert_eq!(TokenizerResult::End, tokenizer.next());
}

fn expect_failure(source: &str, expected_error: TokenizerFailure) {
    let mut tokenizer = Tokenizer::new(source);

    assert_eq!(TokenizerResult::Failure(expected_error), tokenizer.next());
    assert_eq!(TokenizerResult::End, tokenizer.next());
}

fn range(from: (u32, u32), to: (u32, u32)) -> SourceLocationRange {
    SourceLocationRange::new(SourceLocation::new(from.0, from.1), SourceLocation::new(to.0, to.1))
}

fn results_of(source: &str) -> Vec<TokenizerResult> {
    let mut tokenizer = Tokenizer::new(source);
    let mut results = vec![];
    loop {
        let result = tokenizer.next();
        if result == TokenizerResult::End {
            return results;
        }
        results.push(result);
    }
}

#[test]
pub fn returns_end_after_a_failure() {
    let mut tokenizer = Tokenizer::new("name\" othername");

    assert_eq!(
        TokenizerResult::Failure(TokenizerFailure::new(
            SourceLocation::new(0, 5),
            TokenizerFailureKind::UnexpectedCharacterInName {
                index: 4,
                character: '\"'
            }
        )),
        tokenizer.next()
    );
    assert_eq!(TokenizerResult::End, tokenizer.next());
}

#[test]
pub fn can_tokenize_a_name() {
    expect_tokens(
        "a",
        vec![
            Token::Name("a".into()),
        ],
    );
}

#[test]
pub fn can_tokenize_a_multicharacter_name() {
    expect_tokens(
        "test",
        vec![
            Token::Name("test".into()),
        ],
    );
}

#[test]
pub fn can_tokenize_multiple_names() {
    expect_tokens(
        "something else",
        vec![
            Token::Name("something".into()),
            Token::Name("else".into()),
        ],
    );
}

#[test]
pub fn can_read_names_separated_by_unix_newlines() {
    expect_tokens(
        "first\nsecond",
        vec![
            Token::Name("first".into()),
            Token::Name("second".into()),
        ],
    );
}

#[test]
pub fn can_read_a_simple_string() {
    expect_tokens(
        "\"some string\"",
        vec![
            Token::String("some string".into()),
        ],
    );
}

#[test]
pub fn can_read_a_string_with_escaped_quotation_mark() {
    expect_tokens(
        "\"test\\\"some\\\"words\"",
        vec![
            Token::String("test\"some\"words".into()),
        ],
    );
}

#[test]
pub fn can_read_braces() {
    expect_tokens(
        "{}",
        vec![
            Token::OpeningBrace,
            Token::ClosingBrace,
        ],
    );
}

#[test]
pub fn ignores_whitespace() {
    expect_tokens(
        "somename \t \"aaa\" \t {\r\n}\t",
        vec![
            Token::Name("somename".into()),
            Token::String("aaa".into()),
            Token::OpeningBrace,
            Token::ClosingBrace,
        ],
    );
}

#[test]
pub fn allows_underscore_in_name() {
    expect_tokens(
        "na_me",
        vec![
            Token::Name("na_me".into()),
        ],
    );
}

#[test]
pub fn allows_hyphen_in_name() {
    expect_tokens(
        "na-me",
        vec![
            Token::Name("na-me".into()),
        ],
    );
}

#[test]
pub fn allows_digits_in_name() {
    expect_tokens(
        "n12345",
        vec![
            Token::Name("n12345".into()),
        ],
    );
}

#[test]
pub fn handles_slide_as_keyword() {
    expect_tokens(
        "slide",
        vec![
            Token::KeywordSlide,
        ],
    );
}

#[test]
pub fn handles_title_as_keyword() {
    expect_tokens(
        "title",
        vec![
            Token::KeywordTitle,
        ],
    );
}

#[test]
pub fn handles_style_as_keyword() {
    expect_tokens(
        "style",
        vec![
            Token::KeywordStyle,
        ],
    );
}

#[test]
pub fn handles_font_as_keyword() {
    expect_tokens(
        "font",
        vec![
            Token::KeywordFont,
        ],
    );
}

#[test]
pub fn handles_path_as_keyword() {
    expect_tokens(
        "path",
        vec![
            Token::KeywordPath,
        ],
    );
}

#[test]
pub fn handles_name_as_keyword() {
    expect_tokens(
        "name",
        vec![
            Token::KeywordName,
        ],
    );
}

#[test]
pub fn handles_weight_as_keyword() {
    expect_tokens(
        "weight",
        vec![
            Token::KeywordWeight,
        ],
    );
}

#[test]
pub fn handles_italic_as_keyword() {
    expect_tokens(
        "italic",
        vec![
            Token::KeywordItalic,
        ],
    );
}

#[test]
pub fn handles_metadata_as_keyword() {
    expect_tokens(
        "metadata",
        vec![
            Token::KeywordMetadata,
        ],
    );
}

#[test]
pub fn can_handle_commas_between_names() {
    expect_tokens(
        "aa,bb,cc",
        vec![
            Token::Name("aa".into()),
            Token::Comma,
            Token::Name("bb".into()),
            Token::Comma,
            Token::Name("cc".into()),
        ],
    );
}

#[test]
pub fn can_handle_commas_with_single_letter_names() {
    expect_tokens(
        "a,b,c",
        vec![
            Token::Name("a".into()),
            Token::Comma,
            Token::Name("b".into()),
            Token::Comma,
            Token::Name("c".into()),
        ],
    );
}

#[test]
pub fn can_handle_comma_between_strings() {
    expect_tokens(
        "\"a\",\"b\"",
        vec![
            Token::String("a".into()),
            Token::Comma,
            Token::String("b".into()),
        ],
    );
}

#[test]
pub fn can_handle_comma_between_string_and_name() {
    expect_tokens(
        "\"a\",b",
        vec![
            Token::String("a".into()),
            Token::Comma,
            Token::Name("b".into()),
        ],
    );
}

#[test]
pub fn can_handle_comma_between_name_and_string() {
    expect_tokens(
        "a,\"b\"",
        vec![
            Token::Name("a".into()),
            Token::Comma,
            Token::String("b".into()),
        ],
    );
}

#[test]
pub fn can_handle_positive_integers() {
    expect_tokens(
        "123456789",
        vec![
            Token::Integer(123456789),
        ],
    );
}

#[test]
pub fn can_handle_negative_integers() {
    expect_tokens(
        "-123",
        vec![
            Token::Integer(-123),
        ],
    );
}

#[test]
pub fn can_handle_name_followed_by_integer() {
    expect_tokens(
        "aaa 123",
        vec![
            Token::Name("aaa".into()),
            Token::Integer(123),
        ],
    );
}

#[test]
pub fn can_handle_integer_followed_by_a_name() {
    expect_tokens(
        "123 aaa",
        vec![
            Token::Integer(123),
            Token::Name("aaa".into()),
        ],
    );
}

#[test]
pub fn can_handle_name_followed_by_a_comma() {
    expect_tokens(
        "aaa,",
        vec![
            Token::Name("aaa".into()),
            Token::Comma,
        ],
    );
}

#[test]
pub fn can_handle_integer_followed_by_a_comma() {
    expect_tokens(
        "1234,",
        vec![
            Token::Integer(1234),
            Token::Comma,
        ],
    );
}

#[test]
pub fn keywords_are_matched_exactly() {
    expect_tokens(
        "Slide slides titl metadata_ fonts",
        vec![
            Token::Name("Slide".into()),
            Token::Name("slides".into()),
            Token::Name("titl".into()),
            Token::Name("metadata_".into()),
            Token::Name("fonts".into()),
        ],
    );
}

#[test]
pub fn a_keyword_before_a_comma_is_a_keyword() {
    expect_tokens(
        "italic,",
        vec![
            Token::KeywordItalic,
            Token::Comma,
        ],
    );
}

#[test]
pub fn can_handle_single_digit_integers() {
    expect_tokens(
        "7 8,9",
        vec![
            Token::Integer(7),
            Token::Integer(8),
            Token::Comma,
            Token::Integer(9),
        ],
    );
}

#[test]
pub fn an_integer_ends_before_what_is_no_digit() {
    expect_tokens(
        "12{-3}",
        vec![
            Token::Integer(12),
            Token::OpeningBrace,
            Token::Integer(-3),
            Token::ClosingBrace,
        ],
    );
}

#[test]
pub fn leading_zeros_do_not_change_the_value() {
    expect_tokens(
        "007 -0",
        vec![
            Token::Integer(7),
            Token::Integer(0),
        ],
    );
}

#[test]
pub fn can_handle_the_largest_integer() {
    expect_tokens(
        "170141183460469231731687303715884105727",
        vec![
            Token::Integer(i128::MAX),
        ],
    );
}

#[test]
pub fn can_handle_the_smallest_integer() {
    expect_tokens(
        "-170141183460469231731687303715884105728",
        vec![
            Token::Integer(i128::MIN),
        ],
    );
}

#[test]
pub fn the_character_before_a_comma_ends_the_name() {
    expect_tokens(
        "ab#,c",
        vec![
            Token::Name("ab#".into()),
            Token::Comma,
            Token::Name("c".into()),
        ],
    );
}

#[test]
pub fn a_string_may_hold_any_other_character() {
    expect_tokens(
        "\"a {b}, 1\n\u{1F192}\"",
        vec![
            Token::String("a {b}, 1\n\u{1F192}".into()),
        ],
    );
}

#[test]
pub fn an_empty_string_is_a_string() {
    expect_tokens(
        "\"\"",
        vec![
            Token::String("".into()),
        ],
    );
}

#[test]
pub fn form_feed_is_whitespace() {
    expect_tokens(
        "a\u{c}b",
        vec![
            Token::Name("a".into()),
            Token::Name("b".into()),
        ],
    );
}

#[test]
pub fn fails_on_invalid_character_in_name() {
    expect_failure(
        "name\"",
        TokenizerFailure::new(
            SourceLocation::new(0, 5),
            TokenizerFailureKind::UnexpectedCharacterInName { index: 4, character: '\"' },
        ),
    );
}

#[test]
pub fn fails_on_unclosed_string() {
    expect_failure(
        "\"bla",
        TokenizerFailure::new(
            SourceLocation::new(0, 5),
            TokenizerFailureKind::UnclosedString,
        ),
    );
}

#[test]
pub fn fails_on_unknown_escape_sequence() {
    expect_failure(
        "\"\\a",
        TokenizerFailure::new(
            SourceLocation::new(0, 2),
            TokenizerFailureKind::UnknownEscapeSequence('a'),
        ),
    );
}

#[test]
pub fn fails_on_unfinished_escape_sequence() {
    expect_failure(
        "\"\\",
        TokenizerFailure::new(
            SourceLocation::new(0, 2),
            TokenizerFailureKind::UnfinishedEscapeSequence,
        ),
    );
}

#[test]
pub fn fails_on_unexpected_character() {
    expect_failure(
        "\u{1F192}",
        TokenizerFailure::new(
            SourceLocation::new(0, 1),
            TokenizerFailureKind::UnexpectedCharacter('\u{1F192}'),
        ),
    );
}

#[test]
pub fn keeps_track_of_column() {
    expect_failure(
        "    \u{1F192}",
        TokenizerFailure::new(
            SourceLocation::new(0, 5),
            TokenizerFailureKind::UnexpectedCharacter('\u{1F192}'),
        ),
    );
}

#[test]
pub fn keeps_track_of_line() {
    expect_failure(
        "    \n\u{1F192}",
        TokenizerFailure::new(
            SourceLocation::new(1, 1),
            TokenizerFailureKind::UnexpectedCharacter('\u{1F192}'),
        ),
    );
}

#[test]
pub fn fails_on_a_lone_minus_sign() {
    expect_failure(
        "- 1",
        TokenizerFailure::new(
            SourceLocation::new(0, 1),
            TokenizerFailureKind::InvalidIntegerValue("-".into()),
        ),
    );
}

#[test]
pub fn fails_on_an_integer_above_the_range() {
    expect_failure(
        "170141183460469231731687303715884105728",
        TokenizerFailure::new(
            SourceLocation::new(0, 39),
            TokenizerFailureKind::InvalidIntegerValue("170141183460469231731687303715884105728".into()),
        ),
    );
}

#[test]
pub fn fails_on_an_integer_below_the_range() {
    expect_failure(
        "-170141183460469231731687303715884105729",
        TokenizerFailure::new(
            SourceLocation::new(0, 40),
            TokenizerFailureKind::InvalidIntegerValue("-170141183460469231731687303715884105729".into()),
        ),
    );
}

#[test]
pub fn vertical_tab_is_no_whitespace() {
    expect_failure(
        "\u{b}",
        TokenizerFailure::new(
            SourceLocation::new(0, 1),
            TokenizerFailureKind::UnexpectedCharacter('\u{b}'),
        ),
    );
}

#[test]
pub fn every_failure_is_followed_by_the_end() {
    let sources = vec![
        "ab! cd",
        "\"abc",
        "\"a\\n\" b",
        "\"a\\",
        "# b",
        "- b",
        "99999999999999999999999999999999999999999 1",
    ];
    for source in sources {
        let mut tokenizer = Tokenizer::new(source);
        assert!(matches!(tokenizer.next(), TokenizerResult::Failure(_)));
        for _ in 0..5 {
            assert_eq!(TokenizerResult::End, tokenizer.next());
        }
    }
}

#[test]
pub fn an_unclosed_string_fails_once_and_then_ends() {
    let mut tokenizer = Tokenizer::new("\"abc");

    assert_eq!(
        TokenizerResult::Failure(TokenizerFailure::new(
            SourceLocation::new(0, 5),
            TokenizerFailureKind::UnclosedString
        )),
        tokenizer.next()
    );
    for _ in 0..10 {
        assert_eq!(TokenizerResult::End, tokenizer.next());
    }
}

#[test]
pub fn the_end_is_reached_for_good() {
    let mut tokenizer = Tokenizer::new("  a \n ");

    assert!(matches!(tokenizer.next(), TokenizerResult::Token(Token::Name(_), _)));
    for _ in 0..10 {
        assert_eq!(TokenizerResult::End, tokenizer.next());
    }
}

#[test]
pub fn an_empty_source_has_no_tokens() {
    assert_eq!(TokenizerResult::End, Tokenizer::new("").next());
    assert_eq!(TokenizerResult::End, Tokenizer::new(" \t\r\n").next());
}

#[test]
pub fn letters_alone_make_one_word_over_the_whole_source() {
    let sources = vec!["a", "Z", "abc", "slide", "italic", "Metadata", "qwertyuiopASDFGHJKLzxcvbnm"];
    for source in sources {
        let results = results_of(source);
        let count = source.chars().count() as u32;
        let expected = match source {
            "slide" => Token::KeywordSlide,
            "italic" => Token::KeywordItalic,
            other => Token::Name(other.into()),
        };
        assert_eq!(
            vec![TokenizerResult::Token(expected, range((0, 1), (0, count + 1)))],
            results
        );
    }
}

#[test]
pub fn escaped_quotation_marks_are_collapsed() {
    expect_tokens(
        "\"test\\\"escaped\\\"quote\"",
        vec![Token::String("test\"escaped\"quote".into())],
    );
}

#[test]
pub fn escaping_and_reading_gives_the_text_back() {
    let texts = vec!["", "plain", "test\"escaped\"quote", "\"\"", "say \"hi\", then {go}\n"];
    for text in texts {
        let source = format!("\"{}\"", text.replace('"', "\\\""));
        let results = results_of(&source);
        assert_eq!(1, results.len());
        match &results[0] {
            TokenizerResult::Token(Token::String(read), _) => assert_eq!(text, read),
            other => panic!("Unexpected result: {:?}", other),
        }
    }
}

#[test]
pub fn a_decoded_text_without_backslashes_reads_as_itself() {
    let decoded = "test\"escaped\"quote";
    let first = format!("\"{}\"", decoded.replace('"', "\\\""));
    let results = results_of(&first);
    let read = match &results[0] {
        TokenizerResult::Token(Token::String(read), _) => read.clone(),
        other => panic!("Unexpected result: {:?}", other),
    };
    assert_eq!(decoded, read);
    let second = format!("\"{}\"", read.replace('"', "\\\""));
    assert_eq!(first, second);
    assert_eq!(results, results_of(&second));
}

#[test]
pub fn names_and_commas_keep_their_places() {
    assert_eq!(
        vec![
            TokenizerResult::Token(Token::Name("a".into()), range((0, 1), (0, 1))),
            TokenizerResult::Token(Token::Comma, range((0, 2), (0, 2))),
            TokenizerResult::Token(Token::Name("bc".into()), range((0, 3), (0, 4))),
            TokenizerResult::Token(Token::Comma, range((0, 5), (0, 5))),
            TokenizerResult::Token(Token::Name("d".into()), range((0, 6), (0, 7))),
        ],
        results_of("a,bc,d")
    );
}

#[test]
pub fn tokens_carry_their_ranges() {
    assert_eq!(
        vec![
            TokenizerResult::Token(Token::KeywordSlide, range((0, 1), (0, 6))),
            TokenizerResult::Token(Token::String("some slide".into()), range((0, 7), (0, 18))),
            TokenizerResult::Token(Token::OpeningBrace, range((0, 20), (0, 20))),
            TokenizerResult::Token(Token::ClosingBrace, range((0, 21), (0, 21))),
        ],
        results_of("slide \"some slide\" {}")
    );
    assert_eq!(
        vec![
            TokenizerResult::Token(Token::Integer(12), range((0, 1), (0, 2))),
            TokenizerResult::Token(Token::Integer(-345), range((1, 1), (1, 4))),
            TokenizerResult::Token(Token::Name("x".into()), range((1, 6), (2, 0))),
            TokenizerResult::Token(Token::Name("end".into()), range((2, 1), (2, 4))),
        ],
        results_of("12\n-345 x\nend")
    );
}

#[test]
pub fn a_string_over_two_lines_ends_on_the_second() {
    assert_eq!(
        vec![TokenizerResult::Token(Token::String("a\nbc".into()), range((0, 1), (1, 3)))],
        results_of("\"a\nbc\"")
    );
}

#[test]
pub fn the_index_of_a_failure_counts_bytes() {
    let mut tokenizer = Tokenizer::new("\"\u{e9}\u{20ac}\u{1F192}\" ab!");

    assert_eq!(
        TokenizerResult::Token(
            Token::String("\u{e9}\u{20ac}\u{1F192}".into()),
            range((0, 1), (0, 5))
        ),
        tokenizer.next()
    );
    assert_eq!(
        TokenizerResult::Failure(TokenizerFailure::new(
            SourceLocation::new(0, 9),
            TokenizerFailureKind::UnexpectedCharacterInName { index: 14, character: '!' },
        )),
        tokenizer.next()
    );
    assert_eq!(TokenizerResult::End, tokenizer.next());
}

#[test]
pub fn character_classes_are_the_ascii_ones() {
    for character in ['a', 'z', 'A', 'Z', 'm'] {
        assert!(is_ascii_alphabetic(character));
    }
    for character in ['0', '_', '-', ' ', '\u{e9}', '[', '`', '{', '@'] {
        assert!(!is_ascii_alphabetic(character));
    }
    for character in ['0', '5', '9'] {
        assert!(is_ascii_digit(character));
    }
    for character in ['/', ':', 'a', '\u{660}'] {
        assert!(!is_ascii_digit(character));
    }
    for character in [' ', '\t', '\n', '\r', '\u{c}'] {
        assert!(is_ascii_whitespace(character));
    }
    for character in ['\u{b}', '\u{a0}', 'a', '\u{2028}'] {
        assert!(!is_ascii_whitespace(character));
    }
    for code in 0..=0x7f_u8 {
        let character = code as char;
        assert_eq!(character.is_ascii_alphabetic(), is_ascii_alphabetic(character));
        assert_eq!(character.is_ascii_digit(), is_ascii_digit(character));
        assert_eq!(character.is_ascii_whitespace(), is_ascii_whitespace(character));
    }
}

#[test]
pub fn utf8_widths_are_those_of_the_encoding() {
    assert_eq!(1, len_utf8('a'));
    assert_eq!(1, len_utf8('\u{7f}'));
    assert_eq!(2, len_utf8('\u{80}'));
    assert_eq!(2, len_utf8('\u{7ff}'));
    assert_eq!(3, len_utf8('\u{800}'));
    assert_eq!(3, len_utf8('\u{ffff}'));
    assert_eq!(4, len_utf8('\u{10000}'));
    assert_eq!(4, len_utf8('\u{10ffff}'));
    for character in ['\0', '\u{e9}', '\u{20ac}', '\u{1F192}', '\u{d7ff}', '\u{e000}'] {
        assert_eq!(character.len_utf8(), len_utf8(character));
    }
}

#[test]
pub fn the_longest_source_fits_the_counters() {
    assert_eq!(0x3fff_ffff, MAX_SOURCE_LENGTH);
    assert!(MAX_SOURCE_LENGTH as u64 * 4 <= u32::MAX as u64);
}

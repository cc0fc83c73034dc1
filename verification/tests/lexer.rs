use css_parser_core::errors::{LexerError, LexerErrorReason};
use css_parser_core::lexer::Lexer;
use css_parser_core::token::TokenKind;


#[test]
fn advance_moves_by_utf8_code_point_width() {
    let mut lexer = Lexer::new("aé🙂");

    assert_eq!(lexer.current, 0);
    lexer.advance();
    assert_eq!(lexer.current, 1);
    lexer.advance();
    assert_eq!(lexer.current, 3);
    lexer.advance();
    assert_eq!(lexer.current, 7);
    assert!(lexer.at_end());
}

#[test]
fn step_back_restores_the_last_advanced_code_point() {
    let mut lexer = Lexer::new("éx");

    lexer.advance();
    assert_eq!(lexer.current, 2);
    assert_eq!(lexer.last_size_memo, vec![2]);

    lexer.step_back();
    assert_eq!(lexer.current, 0);
    assert!(lexer.last_size_memo.is_empty());
}

#[test]
fn valid_escape_requires_a_non_newline_following_code_point() {
    assert!(Lexer::new("\\a").at_valid_escape());
    assert!(!Lexer::new("\\\n").at_valid_escape());
    assert!(!Lexer::new("\\").at_valid_escape());
}

#[test]
fn whitespace_consumer_stops_on_the_last_whitespace_code_point() {
    let mut lexer = Lexer::new(" \tA");

    assert!(lexer.whitespace(false).is_ok());
    assert_eq!(lexer.peek(), Some('\t'));
    lexer.advance();
    assert_eq!(lexer.peek(), Some('A'));
}

#[test]
fn whitespace_consumer_accepts_only_css_whitespace_code_points() {
    let mut lexer = Lexer::new("\t\n\u{000C}\r A");

    assert!(lexer.whitespace(true).is_ok());
    assert_eq!(lexer.tokens[0].kind, TokenKind::WHITESPACE);
    assert_eq!(lexer.peek(), Some(' '));
    assert_eq!(lexer.line, 4);

    lexer.advance();
    assert_eq!(lexer.peek(), Some('A'));
}

#[test]
fn whitespace_consumer_treats_crlf_as_one_newline() {
    let mut lexer = Lexer::new(" \r\nX");

    assert!(lexer.whitespace(false).is_ok());
    assert_eq!(lexer.peek(), Some('\n'));
    assert_eq!(lexer.line, 2);

    lexer.advance();
    assert_eq!(lexer.peek(), Some('X'));
}

#[test]
fn non_breaking_space_is_not_whitespace_and_starts_an_ident() {
    let mut lexer = Lexer::new("\u{00A0}x");

    assert!(lexer.run().is_ok());
    assert_eq!(lexer.tokens[0].kind, TokenKind::IDENT);
    assert_eq!(lexer.peek(), Some('x'));

    lexer.advance();
    assert!(lexer.at_end());
}

#[test]
fn digit_consumer_stops_on_the_last_digit() {
    let mut lexer = Lexer::new("123x");

    assert!(lexer.digit(false).is_ok());
    assert_eq!(lexer.peek(), Some('3'));
    lexer.advance();
    assert_eq!(lexer.peek(), Some('x'));
}

#[test]
fn number_consumer_classifies_percentage_and_preserves_cursor() {
    let mut lexer = Lexer::new("10%x");

    assert!(lexer.number(true).is_ok());
    assert_eq!(lexer.peek(), Some('%'));
    assert_eq!(lexer.tokens[0].kind, TokenKind::PERCENTAGE);

    lexer.advance();
    assert_eq!(lexer.peek(), Some('x'));
}

#[test]
fn number_consumer_classifies_dimension_and_preserves_cursor() {
    let mut lexer = Lexer::new("1.5rem;");

    assert!(lexer.number(true).is_ok());
    assert_eq!(lexer.peek(), Some('m'));
    assert_eq!(lexer.tokens[0].kind, TokenKind::DIMENSION);

    lexer.advance();
    assert_eq!(lexer.peek(), Some(';'));
}

#[test]
fn number_consumer_restores_state_for_a_non_number_prefix() {
    let mut lexer = Lexer::new("+");

    let result = lexer.number(false);
    assert!(matches!(
        result,
        Err(LexerError {
            reason: LexerErrorReason::MATCHED_PREFIX,
            ..
        })
    ));
    assert_eq!(lexer.current, 0);
    assert!(lexer.last_size_memo.is_empty());
}

#[test]
fn number_consumer_handles_css_number_forms() {
    let cases = [
        ("0", TokenKind::NUMBER, '0'),
        ("+1", TokenKind::NUMBER, '1'),
        ("-1", TokenKind::NUMBER, '1'),
        (".5", TokenKind::NUMBER, '5'),
        ("+.5", TokenKind::NUMBER, '5'),
        ("-.5", TokenKind::NUMBER, '5'),
        ("1.25", TokenKind::NUMBER, '5'),
        ("1e3", TokenKind::NUMBER, '3'),
        ("1E+3", TokenKind::NUMBER, '3'),
        ("1e-3", TokenKind::NUMBER, '3'),
        ("10%", TokenKind::PERCENTAGE, '%'),
        ("2px", TokenKind::DIMENSION, 'x'),
        ("1e3ms", TokenKind::DIMENSION, 's'),
        ("1é", TokenKind::DIMENSION, 'é'),
        ("1\\70 x", TokenKind::DIMENSION, 'x'),
    ];

    for (input, expected_kind, expected_last) in cases {
        let mut lexer = Lexer::new(input);

        assert!(lexer.number(true).is_ok(), "input: {input}");
        assert_eq!(lexer.tokens[0].kind, expected_kind, "input: {input}");
        assert_eq!(lexer.peek(), Some(expected_last), "input: {input}");
    }
}

#[test]
fn number_consumer_leaves_non_numeric_suffixes_for_later_tokens() {
    let cases: [(&str, char, Option<char>); 7] = [
        ("1.", '1', Some('.')),
        ("1.2.3", '2', Some('.')),
        ("1e", 'e', None),
        ("1e+", 'e', Some('+')),
        ("1e-", '-', None),
        ("1e+foo", 'e', Some('+')),
        ("10%%", '%', Some('%')),
    ];

    for (input, expected_last, expected_next) in cases {
        let mut lexer = Lexer::new(input);

        assert!(lexer.number(true).is_ok(), "input: {input}");
        assert_eq!(lexer.peek(), Some(expected_last), "input: {input}");

        lexer.advance();
        assert_eq!(lexer.peek(), expected_next, "input: {input}");
    }
}

#[test]
fn plain_number_aligns_before_a_following_delimiter() {
    let mut lexer = Lexer::new("42)");

    assert!(lexer.number(true).is_ok());
    assert_eq!(lexer.tokens[0].kind, TokenKind::NUMBER);
    assert_eq!(lexer.peek(), Some('2'));

    lexer.advance();
    assert_eq!(lexer.peek(), Some(')'));
}

#[test]
fn string_consumer_handles_closed_strings() {
    let mut lexer = Lexer::new("\"hello\"x");

    assert!(lexer.string(true).is_ok());
    assert_eq!(lexer.tokens[0].kind, TokenKind::STRING);
    assert_eq!(lexer.peek(), Some('"'));

    lexer.advance();
    assert_eq!(lexer.peek(), Some('x'));
}

#[test]
fn string_consumer_emits_bad_string_at_eof() {
    let mut lexer = Lexer::new("\"unterminated");

    assert!(lexer.string(true).is_ok());
    assert_eq!(lexer.tokens[0].kind, TokenKind::BAD_STRING);
    assert_eq!(lexer.peek(), Some('d'));

    lexer.advance();
    assert!(lexer.at_end());
}

#[test]
fn string_consumer_emits_bad_string_before_unescaped_newlines() {
    for newline in ['\n', '\r', '\u{000C}'] {
        let input = format!("\"before{newline}after");
        let mut lexer = Lexer::new(&input);

        assert!(lexer.string(true).is_ok());
        assert_eq!(lexer.tokens[0].kind, TokenKind::BAD_STRING);
        assert_eq!(lexer.peek(), Some('e'));

        lexer.advance();
        assert_eq!(lexer.peek(), Some(newline));
    }
}

#[test]
fn string_consumer_accepts_escaped_newlines() {
    let mut lexer = Lexer::new("\"before\\\nafter\"");

    assert!(lexer.string(true).is_ok());
    assert_eq!(lexer.tokens[0].kind, TokenKind::STRING);
    assert_eq!(lexer.peek(), Some('"'));
}

#[test]
fn string_consumer_uses_backslash_parity_for_quotes() {
    let mut escaped = Lexer::new("\"a\\\"b\"");
    assert!(escaped.string(true).is_ok());
    assert_eq!(escaped.tokens[0].kind, TokenKind::STRING);
    assert_eq!(escaped.peek(), Some('"'));

    let mut unescaped = Lexer::new("\"a\\\\\"x");
    assert!(unescaped.string(true).is_ok());
    assert_eq!(unescaped.tokens[0].kind, TokenKind::STRING);
    assert_eq!(unescaped.peek(), Some('"'));
}

#[test]
fn url_consumer_accepts_printable_content_and_trailing_whitespace() {
    let mut lexer = Lexer::new("url(foo   )x");

    assert!(lexer.run().is_ok());
    assert_eq!(lexer.tokens[0].kind, TokenKind::URL);
    assert_eq!(lexer.peek(), Some(')'));

    lexer.advance();
    assert_eq!(lexer.peek(), Some('x'));
}

#[test]
fn url_consumer_accepts_empty_urls_and_valid_escapes() {
    let mut empty = Lexer::new("url( )");
    assert!(empty.run().is_ok());
    assert_eq!(empty.tokens[0].kind, TokenKind::URL);
    assert_eq!(empty.peek(), Some(')'));

    let mut escaped = Lexer::new("url(foo\\ bar)");
    assert!(escaped.run().is_ok());
    assert_eq!(escaped.tokens[0].kind, TokenKind::URL);
    assert_eq!(escaped.peek(), Some(')'));
}

#[test]
fn url_consumer_emits_bad_url_for_invalid_contents() {
    for input in [
        "url(\"foo\")",
        "url(foo(bar))",
        "url(foo\nbar)",
        "url(foo\u{0000}bar)",
        "url(foo bar baz)",
        "url(foo\\",
    ] {
        let mut lexer = Lexer::new(input);

        assert!(lexer.run().is_ok(), "input: {input:?}");
        assert_eq!(lexer.tokens[0].kind, TokenKind::BAD_URL, "input: {input:?}");
    }
}

#[test]
fn url_consumer_returns_url_at_eof_after_valid_unquoted_content() {
    for input in ["url(foo", "url(foo   ", "url(   "] {
        let mut lexer = Lexer::new(input);

        assert!(lexer.run().is_ok(), "input: {input:?}");
        assert_eq!(lexer.tokens[0].kind, TokenKind::URL, "input: {input:?}");
        assert!(lexer.at_end() || lexer.peek().is_some(), "input: {input:?}");
    }
}

#[test]
fn url_consumer_accepts_hex_and_non_ascii_escapes() {
    for input in ["url(\\70 x)", "url(é)", "url(\\é)"] {
        let mut lexer = Lexer::new(input);

        assert!(lexer.run().is_ok(), "input: {input:?}");
        assert_eq!(lexer.tokens[0].kind, TokenKind::URL, "input: {input:?}");
    }
}

#[test]
fn bad_url_consumer_consumes_remnants_through_the_closing_parenthesis() {
    let mut lexer = Lexer::new("url(\"bad\")next");

    assert!(lexer.run().is_ok());
    assert_eq!(lexer.tokens[0].kind, TokenKind::BAD_URL);
    assert_eq!(lexer.peek(), Some(')'));

    lexer.advance();
    assert_eq!(lexer.peek(), Some('n'));
}

#[test]
fn url_matching_is_ascii_case_insensitive_but_does_not_match_prefixes() {
    let mut uppercase = Lexer::new("URL(foo)");
    assert!(uppercase.run().is_ok());
    assert_eq!(uppercase.tokens[0].kind, TokenKind::URL);

    let mut prefix = Lexer::new("urlx(foo)");
    assert!(prefix.run().is_ok());
    assert_eq!(prefix.tokens[0].kind, TokenKind::FUNCTION);
}

#[test]
fn run_emits_delim_for_unmatched_code_points() {
    for delimiter in ['*', '=', '>', '<', '~', '|', '^', '$', '&', '!', '?', '%'] {
        let input = format!("{delimiter}x");
        let mut lexer = Lexer::new(&input);

        assert!(lexer.run().is_ok(), "delimiter: {delimiter}");
        assert_eq!(lexer.tokens[0].kind, TokenKind::DELIM(delimiter));
        assert_eq!(lexer.peek(), Some(delimiter));

        lexer.advance();
        assert_eq!(lexer.peek(), Some('x'));
    }
}

#[test]
fn run_emits_one_delim_for_a_non_comment_slash() {
    let mut lexer = Lexer::new("/x");

    assert!(lexer.run().is_ok());
    assert_eq!(lexer.tokens.len(), 1);
    assert_eq!(lexer.tokens[0].kind, TokenKind::SLASH);
    assert_eq!(lexer.peek(), Some('/'));
}

#[test]
fn run_emits_cdo_and_cdc_with_correct_cursor_alignment() {
    let mut cdo = Lexer::new("<!--x");
    assert!(cdo.run().is_ok());
    assert_eq!(cdo.tokens[0].kind, TokenKind::CDO);
    assert_eq!(cdo.peek(), Some('-'));
    cdo.advance();
    assert_eq!(cdo.peek(), Some('x'));

    let mut cdc = Lexer::new("-->x");
    assert!(cdc.run().is_ok());
    assert_eq!(cdc.tokens[0].kind, TokenKind::CDC);
    assert_eq!(cdc.peek(), Some('>'));
    cdc.advance();
    assert_eq!(cdc.peek(), Some('x'));
}

#[test]
fn number_consumer_rejects_non_number_starts_without_consumption() {
    for input in ["", "+", "-", ".", "+.", "-.", "--1", "+foo"] {
        let mut lexer = Lexer::new(input);

        let result = lexer.number(false);
        assert!(matches!(
            result,
            Err(LexerError {
                reason: LexerErrorReason::MATCHED_PREFIX,
                ..
            })
        ), "input: {input}");
        assert_eq!(lexer.current, 0, "input: {input}");
        assert!(lexer.last_size_memo.is_empty(), "input: {input}");
    }
}

#[test]
fn closed_comment_stops_on_the_comment_terminator() {
    let mut lexer = Lexer::new("/* comment */x");

    assert!(lexer.comment().is_ok());
    assert_eq!(lexer.peek(), Some('/'));
    lexer.advance();
    assert_eq!(lexer.peek(), Some('x'));
}

#[test]
fn unterminated_comment_reports_an_error_at_eof() {
    let mut lexer = Lexer::new("/* comment");

    let result = lexer.comment();
    assert!(matches!(
        result,
        Err(LexerError {
            reason: LexerErrorReason::UNTERMINATED_TOKEN,
            ..
        })
    ));
    assert!(lexer.at_end());
}

#[test]
fn function_consumer_stops_on_the_opening_parenthesis() {
    let mut lexer = Lexer::new("calc(");

    assert!(lexer.function(true).is_ok());
    assert_eq!(lexer.peek(), Some('('));
    assert_eq!(lexer.tokens.len(), 1);
    assert_eq!(lexer.tokens[0].kind, TokenKind::FUNCTION);

    lexer.advance();
    assert!(lexer.at_end());
}

#[test]
fn function_consumer_restores_state_when_no_parenthesis_follows() {
    let mut lexer = Lexer::new("calc ");

    let result = lexer.function(false);
    assert!(matches!(
        result,
        Err(LexerError {
            reason: LexerErrorReason::MATCHED_PREFIX,
            ..
        })
    ));
    assert_eq!(lexer.current, 0);
    assert!(lexer.last_size_memo.is_empty());
}

#[test]
fn at_keyword_consumer_stops_on_the_last_identifier_code_point() {
    let mut lexer = Lexer::new("@media{");

    assert!(lexer.at_keyword(true).is_ok());
    assert_eq!(lexer.peek(), Some('a'));
    assert_eq!(lexer.tokens.len(), 1);
    assert_eq!(lexer.tokens[0].kind, TokenKind::AT_KEYWORD);

    lexer.advance();
    assert_eq!(lexer.peek(), Some('{'));
}

#[test]
fn at_keyword_consumer_restores_state_when_identifier_does_not_follow() {
    let mut lexer = Lexer::new("@ ");

    let result = lexer.at_keyword(false);
    assert!(matches!(
        result,
        Err(LexerError {
            reason: LexerErrorReason::MATCHED_PREFIX,
            ..
        })
    ));
    assert_eq!(lexer.current, 0);
    assert!(lexer.last_size_memo.is_empty());
}

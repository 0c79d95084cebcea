use std::borrow::Cow;

use json_lex::{JSONLexer, LexError, Span, SpannedToken, Token};

fn first_error(input: &str) -> LexError {
    let mut lexer = JSONLexer::new(input);
    loop {
        match lexer.next_token() {
            Ok(t) => assert!(t.token != Token::Eof, "no error in {input:?}"),
            Err(e) => return e,
        }
    }
}

fn all_tokens(input: &str) -> Vec<SpannedToken<'_>> {
    let mut lexer = JSONLexer::new(input);
    let mut out = Vec::new();
    while let Some(r) = lexer.next() {
        out.push(r.unwrap());
    }
    out
}

fn reason_of(e: &LexError) -> (&str, usize, usize) {
    match e {
        LexError::InvalidString { reason, line, column }
        | LexError::InvalidNumber { reason, line, column }
        | LexError::InvalidEscape { reason, line, column }
        | LexError::InvalidToken { reason, line, column } => (reason.as_str(), *line, *column),
        other => panic!("no reason in {other:?}"),
    }
}

#[test]
fn unexpected_char_position_and_message() {
    let e = first_error("  @");
    assert!(matches!(e, LexError::UnexpectedChar { ch: '@', line: 1, column: 3 }));
    assert_eq!(e.message(), "unexpected character '@' at 1:3");
}

#[test]
fn unexpected_char_after_newlines() {
    let e = first_error("{\n  \"a\" :\n @");
    assert!(matches!(e, LexError::UnexpectedChar { ch: '@', line: 3, column: 2 }));
}

#[test]
fn unexpected_multibyte_char() {
    let e = first_error("é");
    assert!(matches!(e, LexError::UnexpectedChar { ch: 'é', line: 1, column: 1 }));
    assert_eq!(e.message(), "unexpected character 'é' at 1:1");
}

#[test]
fn columns_count_characters_not_bytes() {
    let e = first_error("\"é\"x");
    assert!(matches!(e, LexError::UnexpectedChar { ch: 'x', line: 1, column: 4 }));
}

#[test]
fn unterminated_string_position_and_message() {
    let e = first_error("\"abc");
    assert!(matches!(e, LexError::UnterminatedString { line: 1, column: 5 }));
    assert_eq!(e.message(), "unterminated string at 1:5");
}

#[test]
fn unterminated_after_backslash() {
    let e = first_error("\"\\");
    assert!(matches!(e, LexError::UnterminatedString { line: 1, column: 3 }));
}

#[test]
fn control_character_in_string() {
    let e = first_error("\"a\tb\"");
    assert!(matches!(e, LexError::InvalidString { .. }));
    assert_eq!(reason_of(&e), ("control characters are not allowed", 1, 3));
    assert_eq!(e.message(), "invalid string at 1:3: control characters are not allowed");
}

#[test]
fn raw_newline_in_string() {
    let e = first_error("\"a\nb\"");
    assert_eq!(reason_of(&e), ("control characters are not allowed", 1, 3));
}

#[test]
fn number_errors() {
    let cases: [(&str, &str, usize, usize); 6] = [
        ("-x", "expected digit after '-'", 1, 2),
        ("01", "leading zeros are not allowed", 1, 2),
        ("1.", "expected digit after decimal point", 1, 3),
        ("1e", "expected digit in exponent", 1, 3),
        ("1e+", "expected digit in exponent", 1, 4),
        ("12a", "invalid character after number: 'a'", 1, 3),
    ];
    for (input, reason, line, column) in cases {
        let e = first_error(input);
        assert!(matches!(e, LexError::InvalidNumber { .. }), "{input:?}");
        assert_eq!(reason_of(&e), (reason, line, column), "{input:?}");
    }
    assert_eq!(
        first_error("01").message(),
        "invalid number at 1:2: leading zeros are not allowed"
    );
}

#[test]
fn escape_errors() {
    let cases: [(&str, &str, usize, usize); 7] = [
        ("\"\\q\"", "invalid escape sequence '\\q'", 1, 3),
        ("\"\\u12G4\"", "expected hexadecimal digit, found 'G'", 1, 6),
        ("\"\\u12", "unexpected EOF in unicode escape", 1, 6),
        ("\"\\uD83Dx\"", "expected second surrogate pair", 1, 8),
        ("\"\\uD83D\\x\"", "expected '\\u' for second surrogate pair", 1, 9),
        ("\"\\uD83D\\u0041\"", "invalid low surrogate", 1, 14),
        ("\"\\uDE00\"", "unexpected low surrogate", 1, 8),
    ];
    for (input, reason, line, column) in cases {
        let e = first_error(input);
        assert!(matches!(e, LexError::InvalidEscape { .. }), "{input:?}");
        assert_eq!(reason_of(&e), (reason, line, column), "{input:?}");
    }
    assert_eq!(
        first_error("\"\\q\"").message(),
        "invalid escape at 1:3: invalid escape sequence '\\q'"
    );
}

#[test]
fn surrogate_pair_at_end_of_input() {
    let e = first_error("\"\\uD83D");
    assert_eq!(reason_of(&e), ("expected second surrogate pair", 1, 8));
}

#[test]
fn keyword_errors() {
    let cases: [(&str, &str, usize, usize); 4] = [
        ("nul", "expected \"null\", found \"nul\"", 1, 4),
        ("nulL", "expected \"null\", found \"nulL\"", 1, 5),
        (
            "nullx",
            "keyword must be followed by whitespace, EOF, or a JSON delimiter, found 'x'",
            1,
            5,
        ),
        ("tru\ne", "expected \"true\", found \"tru\n\"", 2, 1),
    ];
    for (input, reason, line, column) in cases {
        let e = first_error(input);
        assert!(matches!(e, LexError::InvalidToken { .. }), "{input:?}");
        assert_eq!(reason_of(&e), (reason, line, column), "{input:?}");
    }
    assert_eq!(
        first_error("nul").message(),
        "invalid token at 1:4: expected \"null\", found \"nul\""
    );
}

#[test]
fn keyword_followed_by_underscore() {
    let e = first_error("false_");
    assert_eq!(
        reason_of(&e),
        (
            "keyword must be followed by whitespace, EOF, or a JSON delimiter, found '_'",
            1,
            6
        )
    );
}

#[test]
fn keywords_before_delimiters() {
    let tokens: Vec<Token> = all_tokens("[true,false,null]").into_iter().map(|t| t.token).collect();
    assert_eq!(
        tokens,
        vec![
            Token::LeftBracket,
            Token::True,
            Token::Comma,
            Token::False,
            Token::Comma,
            Token::Null,
            Token::RightBracket,
        ]
    );
}

#[test]
fn json_numbers_are_lexed_whole() {
    for n in ["0", "-0", "7", "-12", "0.5", "-0.5E+3", "10e5", "1E-0", "123.456e789"] {
        let tokens = all_tokens(n);
        assert_eq!(tokens.len(), 1, "{n:?}");
        assert_eq!(tokens[0].token, Token::Number(n));
        assert_eq!(tokens[0].span, Span { start: 0, end: n.len() });
    }
}

#[test]
fn numbers_end_at_delimiters() {
    let tokens = all_tokens("[1,-2.5e1]:3}\t4\r\n");
    let numbers: Vec<&str> = tokens
        .iter()
        .filter_map(|t| if let Token::Number(s) = t.token { Some(s) } else { None })
        .collect();
    assert_eq!(numbers, vec!["1", "-2.5e1", "3", "4"]);
}

#[test]
fn string_spans_cover_the_quotes() {
    let mut lexer = JSONLexer::new(r#"  "key" "#);
    let t = lexer.next_token().unwrap();
    assert_eq!(t.span, Span { start: 2, end: 7 });
    assert_eq!(t.token, Token::String("key".into()));
}

#[test]
fn spans_are_byte_offsets() {
    let tokens = all_tokens("\"é\" 7");
    assert_eq!(tokens[0].token, Token::String("é".into()));
    assert_eq!(tokens[0].span, Span { start: 0, end: 4 });
    assert_eq!(tokens[1].token, Token::Number("7"));
    assert_eq!(tokens[1].span, Span { start: 5, end: 6 });
}

#[test]
fn unescaped_strings_borrow_the_input() {
    let input = r#""plain text""#;
    let mut lexer = JSONLexer::new(input);
    match lexer.next_token().unwrap().token {
        Token::String(Cow::Borrowed(s)) => {
            assert_eq!(s, "plain text");
            assert_eq!(s.as_ptr(), input[1..].as_ptr());
        }
        other => panic!("expected a borrowed string, got {other:?}"),
    }
}

#[test]
fn escaped_strings_are_owned() {
    let mut lexer = JSONLexer::new(r#""a\nb""#);
    match lexer.next_token().unwrap().token {
        Token::String(Cow::Owned(s)) => assert_eq!(s, "a\nb"),
        other => panic!("expected an owned string, got {other:?}"),
    }
}

#[test]
fn all_simple_escapes() {
    let mut lexer = JSONLexer::new(r#""\"\\\/\b\f\n\r\t x""#);
    let t = lexer.next_token().unwrap();
    assert_eq!(t.token, Token::String("\"\\/\u{8}\u{c}\n\r\t x".into()));
}

#[test]
fn text_after_an_escape_is_kept() {
    let mut lexer = JSONLexer::new(r#""ab\u00e9cd""#);
    assert_eq!(lexer.next_token().unwrap().token, Token::String("abécd".into()));
}

#[test]
fn eof_repeats_at_the_same_place() {
    let mut lexer = JSONLexer::new(" 1  ");
    assert_eq!(lexer.next_token().unwrap().token, Token::Number("1"));
    for _ in 0..3 {
        let t = lexer.next_token().unwrap();
        assert_eq!(t.token, Token::Eof);
        assert_eq!(t.span, Span { start: 4, end: 4 });
    }
}

#[test]
fn empty_input_is_eof() {
    let mut lexer = JSONLexer::new("");
    let t = lexer.next_token().unwrap();
    assert_eq!(t.token, Token::Eof);
    assert_eq!(t.span, Span { start: 0, end: 0 });
    assert!(JSONLexer::new(" \t\r\n").next().is_none());
}

#[test]
fn stream_continues_after_an_error() {
    let mut lexer = JSONLexer::new("1 x 2");
    assert_eq!(lexer.next().unwrap().unwrap().token, Token::Number("1"));
    assert!(matches!(
        lexer.next().unwrap(),
        Err(LexError::UnexpectedChar { ch: 'x', line: 1, column: 3 })
    ));
    assert_eq!(lexer.next().unwrap().unwrap().token, Token::Number("2"));
    assert!(lexer.next().is_none());
}

#[test]
fn spans_lie_within_the_input() {
    let input = "{\"a\": [1, 2.5, \"ü\", true, null], \"b\": false}";
    for t in all_tokens(input) {
        assert!(t.span.start < t.span.end && t.span.end <= input.len());
        assert!(input.is_char_boundary(t.span.start) && input.is_char_boundary(t.span.end));
    }
}

#[test]
fn keyword_methods_after_their_first_character() {
    let mut lexer = JSONLexer::new("]rue");
    assert_eq!(lexer.next_token().unwrap().token, Token::RightBracket);
    let t = lexer.lex_true().unwrap();
    assert_eq!(t.token, Token::True);
    assert_eq!(t.span, Span { start: 0, end: 4 });

    let mut lexer = JSONLexer::new("]alse");
    lexer.next_token().unwrap();
    assert_eq!(lexer.lex_false().unwrap().token, Token::False);

    let mut lexer = JSONLexer::new("]ull");
    lexer.next_token().unwrap();
    assert_eq!(lexer.lex_null().unwrap().token, Token::Null);
}

#[test]
fn string_and_number_methods_after_their_first_character() {
    let mut lexer = JSONLexer::new("]ab\"");
    lexer.next_token().unwrap();
    let t = lexer.lex_string().unwrap();
    assert_eq!(t.token, Token::String("ab".into()));
    // No quote stands before the body, so the span starts at the body.
    assert_eq!(t.span, Span { start: 1, end: 4 });

    let mut lexer = JSONLexer::new("-5 ");
    let t = lexer.next_token().unwrap();
    assert_eq!(t.token, Token::Number("-5"));

    // The number is taken to start one byte (the width of `-`) before
    // the current position, wherever that is.
    let mut lexer = JSONLexer::new("[7]");
    lexer.next_token().unwrap();
    let t = lexer.lex_number('-').unwrap();
    assert_eq!(t.token, Token::Number("[7"));
    assert_eq!(t.span, Span { start: 0, end: 2 });

    let mut lexer = JSONLexer::new("[x]");
    lexer.next_token().unwrap();
    let e = lexer.lex_number('-').unwrap_err();
    assert_eq!(reason_of(&e), ("expected digit after '-'", 1, 2));
}

#[test]
fn tokens_clone_equal() {
    let t = all_tokens(r#""a\tb""#).remove(0);
    let c = t.clone();
    assert_eq!(c, t);
    let n = all_tokens("3.5").remove(0);
    assert_eq!(n.clone(), n);
}

#[test]
fn tokens_lex_alone_to_themselves() {
    let input = "{\"k\\u00e9y\": [-1.5e3, true, false, null, \"é\"]}";
    for t in all_tokens(input) {
        let own = &input[t.span.start..t.span.end];
        let again = all_tokens(own);
        assert_eq!(again.len(), 1, "{own:?}");
        assert_eq!(again[0].token, t.token);
        assert_eq!(again[0].span, Span { start: 0, end: own.len() });
    }
}

#[test]
fn string_method_on_a_fresh_lexer() {
    let mut lexer = JSONLexer::new(r#"a\uD83D\uDE00b""#);
    let t = lexer.lex_string().unwrap();
    assert_eq!(t.token, Token::String("a😀b".into()));
    assert_eq!(t.span, Span { start: 0, end: 15 });

    let mut lexer = JSONLexer::new(r#"\"\\\/\b\f\n\r\t""#);
    assert_eq!(lexer.lex_string().unwrap().token, Token::String("\"\\/\u{8}\u{c}\n\r\t".into()));

    assert!(matches!(
        JSONLexer::new(r#"ab\q""#).lex_string(),
        Err(LexError::InvalidEscape { line: 1, column: 4, .. })
    ));
    assert!(matches!(
        JSONLexer::new("ab").lex_string(),
        Err(LexError::UnterminatedString { line: 1, column: 3 })
    ));
    assert!(matches!(
        JSONLexer::new("a\u{1}\"").lex_string(),
        Err(LexError::InvalidString { line: 1, column: 2, .. })
    ));
}

#[test]
fn delete_and_c1_controls_are_allowed_in_strings() {
    let mut lexer = JSONLexer::new("\"a\u{7f}\u{85}b\"");
    assert_eq!(lexer.next_token().unwrap().token, Token::String("a\u{7f}\u{85}b".into()));
    let e = first_error("\"a\u{1f}b\"");
    assert_eq!(reason_of(&e), ("control characters are not allowed", 1, 3));
}

#[test]
fn whitespace_prefix_shifts_tokens_and_spans() {
    let s = "[1, \"x\", true]";
    let w = " \t\r\n ";
    let plain = all_tokens(s);
    let prefixed_input = format!("{w}{s}");
    let prefixed = all_tokens(&prefixed_input);
    assert_eq!(plain.len(), prefixed.len());
    for (a, b) in plain.iter().zip(prefixed.iter()) {
        assert_eq!(a.token, b.token);
        assert_eq!(b.span, Span { start: a.span.start + w.len(), end: a.span.end + w.len() });
    }
}

#[test]
fn escaped_strings_round_trip() {
    let original = "a\"b\\c\u{1}\u{1f}é";
    let written = r#"a\"b\\c\u0001\u001fé"#;
    let input = format!("{written}\"");
    let mut lexer = JSONLexer::new(&input);
    let t = lexer.lex_string().unwrap();
    assert_eq!(t.token, Token::String(original.into()));
    assert_eq!(t.span.end, written.len() + 1);
    assert!(matches!(t.token, Token::String(Cow::Owned(_))));
}

#[test]
fn hex_letter_case_does_not_matter() {
    let a = JSONLexer::new(r#"\u00e9\u00E9""#).lex_string().unwrap();
    assert_eq!(a.token, Token::String("éé".into()));
    for (lower, upper) in [(r#""\ud83d\ude00x""#, r#""\uD83D\uDE00x""#), (r#""\u00aG""#, r#""\u00AG""#)] {
        let l = all_results(lower);
        let u = all_results(upper);
        assert_eq!(l.len(), u.len());
        for (x, y) in l.iter().zip(u.iter()) {
            match (x, y) {
                (Ok(p), Ok(q)) => assert_eq!(p, q),
                (Err(p), Err(q)) => assert_eq!(p.message(), q.message()),
                _ => panic!("{lower:?} and {upper:?} lex differently"),
            }
        }
    }
}

fn all_results(input: &str) -> Vec<Result<SpannedToken<'_>, LexError>> {
    let mut lexer = JSONLexer::new(input);
    let mut out = Vec::new();
    while let Some(r) = lexer.next() {
        let stop = r.is_err();
        out.push(r);
        if stop {
            break;
        }
    }
    out
}

#[test]
fn iteration_ends_within_the_number_of_characters() {
    for input in ["", "  ", "[1,2,3]", "x y z", "\"a\" @ 1.5e3 nul", "{\"é\":[true,false,null]}"] {
        let mut lexer = JSONLexer::new(input);
        let mut items = 0;
        while lexer.next().is_some() {
            items += 1;
            assert!(items <= input.chars().count(), "{input:?}");
        }
        for _ in 0..3 {
            assert!(lexer.next().is_none());
        }
    }
}

#[test]
fn next_is_next_token_without_eof() {
    let input = "[1, \"two\", x] ";
    let mut a = JSONLexer::new(input);
    let mut b = JSONLexer::new(input);
    loop {
        let r = a.next_token();
        let item = b.next();
        match (r, item) {
            (Ok(t), None) => {
                assert_eq!(t.token, Token::Eof);
                break;
            }
            (Ok(t), Some(Ok(u))) => assert_eq!(t, u),
            (Err(e), Some(Err(f))) => assert_eq!(e.message(), f.message()),
            _ => panic!("next and next_token disagree"),
        }
    }
}

#[test]
fn line_is_one_more_than_the_line_feeds_before() {
    let input = "[\n 1,\n\n   @";
    let e = first_error(input);
    assert!(matches!(e, LexError::UnexpectedChar { ch: '@', line: 4, column: 4 }));
}

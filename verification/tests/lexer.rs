use lox_lexer::lexer::{collect_tokens, into_tokens, LexerError, Span, Token};

fn tokens_of(src: &str) -> Vec<(Token, Span)> {
    into_tokens(src).unwrap()
}

fn error_message_of(src: &str) -> String {
    match into_tokens(src) {
        Ok(toks) => panic!("expected an error, got {:?}", toks),
        Err(e) => e.message().clone(),
    }
}

fn span(start: usize, end: usize) -> Span {
    Span { start, end }
}

#[test]
fn bang_equal_is_one_token() {
    assert_eq!(tokens_of("!="), vec![(Token::BangEqual, span(0, 2))]);
}

#[test]
fn less_equal_is_one_token() {
    assert_eq!(tokens_of("<="), vec![(Token::LessEqual, span(0, 2))]);
}

#[test]
fn double_symbols() {
    assert_eq!(
        tokens_of("!= == >= <="),
        vec![
            (Token::BangEqual, span(0, 2)),
            (Token::EqualEqual, span(3, 5)),
            (Token::GreaterEqual, span(6, 8)),
            (Token::LessEqual, span(9, 11)),
        ]
    );
}

#[test]
fn single_comparison_symbols() {
    assert_eq!(
        tokens_of("! = > <"),
        vec![
            (Token::Bang, span(0, 1)),
            (Token::Equal, span(2, 3)),
            (Token::Greater, span(4, 5)),
            (Token::Less, span(6, 7)),
        ]
    );
}

#[test]
fn single_symbols() {
    assert_eq!(
        tokens_of("()[],.+;/*"),
        vec![
            (Token::LeftParen, span(0, 1)),
            (Token::RightParen, span(1, 2)),
            (Token::LeftBrace, span(2, 3)),
            (Token::RightBrace, span(3, 4)),
            (Token::Comma, span(4, 5)),
            (Token::Dot, span(5, 6)),
            (Token::Plus, span(6, 7)),
            (Token::Semicolon, span(7, 8)),
            (Token::Slash, span(8, 9)),
            (Token::Star, span(9, 10)),
        ]
    );
}

#[test]
fn keyword_prefix_stays_identifier() {
    assert_eq!(tokens_of("classify"), vec![(Token::Id, span(0, 8))]);
}

#[test]
fn keyword_followed_by_word_char_is_identifier() {
    assert_eq!(tokens_of("iff"), vec![(Token::Id, span(0, 3))]);
    assert_eq!(tokens_of("andy"), vec![(Token::Id, span(0, 4))]);
}

#[test]
fn all_keywords() {
    let cases = [
        ("and", Token::And),
        ("class", Token::Class),
        ("else", Token::Else),
        ("false", Token::False),
        ("fun", Token::Fun),
        ("for", Token::For),
        ("if", Token::If),
        ("nil", Token::Nil),
        ("or", Token::Or),
        ("print", Token::Print),
        ("return", Token::Return),
        ("super", Token::Super),
        ("this", Token::This),
        ("true", Token::True),
        ("var", Token::Var),
        ("while", Token::While),
    ];
    for (text, kind) in cases.iter() {
        assert_eq!(tokens_of(text), vec![(*kind, span(0, text.len()))]);
    }
}

#[test]
fn underscore_identifier() {
    assert_eq!(tokens_of("_a1"), vec![(Token::Id, span(0, 3))]);
}

#[test]
fn negative_decimal_number() {
    let toks = tokens_of("-12.5");
    assert_eq!(toks, vec![(Token::Number, span(0, 5))]);
    let (_, sp) = toks[0];
    let value: f64 = "-12.5"[sp.start..sp.end].parse().unwrap();
    assert_eq!(value, -12.5);
}

#[test]
fn number_forms() {
    assert_eq!(tokens_of("12"), vec![(Token::Number, span(0, 2))]);
    assert_eq!(tokens_of("12.5"), vec![(Token::Number, span(0, 4))]);
    assert_eq!(
        tokens_of("12."),
        vec![(Token::Number, span(0, 2)), (Token::Dot, span(2, 3))]
    );
    assert_eq!(
        tokens_of("1-2"),
        vec![(Token::Number, span(0, 1)), (Token::Number, span(1, 3))]
    );
}

#[test]
fn minus_without_digit_is_minus() {
    assert_eq!(tokens_of("-"), vec![(Token::Minus, span(0, 1))]);
    assert_eq!(
        tokens_of("-x"),
        vec![(Token::Minus, span(0, 1)), (Token::Id, span(1, 2))]
    );
}

#[test]
fn string_literal() {
    assert_eq!(tokens_of("\"a b\""), vec![(Token::String, span(0, 5))]);
}

#[test]
fn string_closes_at_last_quote_on_line() {
    assert_eq!(tokens_of("\"a\" \"b\""), vec![(Token::String, span(0, 7))]);
}

#[test]
fn unterminated_string_is_an_error_at_start() {
    let msg = error_message_of("\"abc");
    assert_eq!(msg, "error: unknown token on line 0, chars 0..1:\n\"");
}

#[test]
fn error_reports_line_and_columns() {
    let msg = error_message_of("var x = 1\n@@@");
    assert_eq!(msg, "error: unknown token on line 1, chars 0..3:\n@@@");
}

#[test]
fn single_unknown_char_terminates() {
    let msg = error_message_of("@");
    assert_eq!(msg, "error: unknown token on line 0, chars 0..1:\n@");
}

#[test]
fn unknown_run_is_one_error() {
    let msg = error_message_of("@#$");
    assert_eq!(msg, "error: unknown token on line 0, chars 0..3:\n@#$");
}

#[test]
fn first_error_is_reported() {
    let msg = error_message_of("a @@ b\n@@@");
    assert_eq!(msg, "error: unknown token on line 0, chars 2..4:\n@@");
}

#[test]
fn whitespace_is_elided() {
    assert_eq!(
        tokens_of("var   x"),
        vec![(Token::Var, span(0, 3)), (Token::Id, span(6, 7))]
    );
}

#[test]
fn whitespace_only_input_is_empty() {
    assert_eq!(tokens_of(" \t\r\u{000c}\n"), Vec::new());
}

#[test]
fn empty_input_is_empty() {
    assert_eq!(tokens_of(""), Vec::new());
}

#[test]
fn raw_stream_covers_source() {
    for src in ["var x = 1\n@@@", "a @@ b", "\"abc", "  -12.5<=!\t"].iter() {
        let raw = collect_tokens(src);
        let mut rebuilt = String::new();
        for (_, sp) in raw.iter() {
            rebuilt.push_str(&src[sp.start..sp.end]);
        }
        assert_eq!(&rebuilt, src);
    }
}

#[test]
fn raw_stream_keeps_whitespace_spans() {
    let raw = collect_tokens("var x");
    assert_eq!(
        raw,
        vec![
            (Token::Var, span(0, 3)),
            (Token::Whitespace, span(3, 4)),
            (Token::Id, span(4, 5)),
        ]
    );
}

#[test]
fn scanning_twice_is_identical() {
    let src = "var x = 1\n\"s\" @@ classify <= -3.5";
    assert_eq!(collect_tokens(src), collect_tokens(src));
    let first = into_tokens(src);
    let second = into_tokens(src);
    match (first, second) {
        (Err(e1), Err(e2)) => assert_eq!(e1.message(), e2.message()),
        _ => panic!("both scans must report the same error"),
    }
    let clean = "var x = classify(1, \"two\");";
    assert_eq!(tokens_of(clean), tokens_of(clean));
}

#[test]
fn err_builds_the_diagnostic() {
    let e = LexerError::err("ab@", Span { start: 2, end: 3 });
    assert_eq!(
        e.message().as_str(),
        "error: unknown token on line 0, chars 2..3:\n@"
    );
    let e = LexerError::err("a\nb\ncd", Span { start: 4, end: 6 });
    assert_eq!(
        e.message().as_str(),
        "error: unknown token on line 2, chars 0..2:\ncd"
    );
}

#[test]
fn semicolon_is_a_symbol() {
    assert_eq!(
        tokens_of("var x;"),
        vec![
            (Token::Var, span(0, 3)),
            (Token::Id, span(4, 5)),
            (Token::Semicolon, span(5, 6)),
        ]
    );
}

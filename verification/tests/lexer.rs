use iwwc::config::math::lexer::{Lexer, Token};

fn tokens_of(input: &str) -> Vec<Token> {
    Lexer::new(input)
        .tokenize()
        .unwrap()
        .into_iter()
        .map(|(t, _)| t)
        .collect()
}

#[test]
fn lex_numbers() {
    assert_eq!(tokens_of("0"), vec![Token::Int(0)]);
    assert_eq!(tokens_of("42"), vec![Token::Int(42)]);
    assert_eq!(tokens_of("3.12"), vec![Token::Float("3.12".into())]);
    assert_eq!(tokens_of("0.5"), vec![Token::Float("0.5".into())]);
}

#[test]
fn lex_ident() {
    assert_eq!(tokens_of("x"), vec![Token::Ident("x".into())]);
    assert_eq!(tokens_of("foo_bar"), vec![Token::Ident("foo_bar".into())]);
    assert_eq!(tokens_of("round"), vec![Token::Ident("round".into())]);
}

#[test]
fn lex_operators() {
    assert_eq!(tokens_of("+"), vec![Token::Plus]);
    assert_eq!(tokens_of("-"), vec![Token::Minus]);
    assert_eq!(tokens_of("*"), vec![Token::Star]);
    assert_eq!(tokens_of("/"), vec![Token::Slash]);
    assert_eq!(tokens_of("%"), vec![Token::Percent]);
    assert_eq!(tokens_of("^"), vec![Token::Caret]);
    assert_eq!(tokens_of("("), vec![Token::LParen]);
    assert_eq!(tokens_of(")"), vec![Token::RParen]);
    assert_eq!(tokens_of(","), vec![Token::Comma]);
    assert_eq!(tokens_of("."), vec![Token::Dot]);
    assert_eq!(tokens_of("<"), vec![Token::Lt]);
    assert_eq!(tokens_of(">"), vec![Token::Gt]);
    assert_eq!(tokens_of("<="), vec![Token::Le]);
    assert_eq!(tokens_of(">="), vec![Token::Ge]);
    assert_eq!(tokens_of("=="), vec![Token::Eq]);
    assert_eq!(tokens_of("!="), vec![Token::Ne]);
}

#[test]
fn lex_whitespace_skipped() {
    assert_eq!(
        tokens_of(" x + 1 "),
        vec![Token::Ident("x".into()), Token::Plus, Token::Int(1)]
    );
}

#[test]
fn lex_compound() {
    assert_eq!(
        tokens_of("round(x).1"),
        vec![
            Token::Ident("round".into()),
            Token::LParen,
            Token::Ident("x".into()),
            Token::RParen,
            Token::Dot,
            Token::Int(1),
        ]
    );
}

#[test]
fn lex_byte_ranges() {
    let toks = Lexer::new("ab + 3").tokenize().unwrap();
    assert_eq!(toks[0].1, 0..2);
    assert_eq!(toks[1].1, 3..4);
    assert_eq!(toks[2].1, 5..6);
}

#[test]
fn lex_bad_char() {
    let err = Lexer::new("a @ b").tokenize().unwrap_err();
    assert_eq!(err.offset, 2);
}

#[test]
fn lex_bad_char_reports_the_whole_character() {
    let err = Lexer::new("1 + é").tokenize().unwrap_err();
    assert_eq!(err.offset, 4);
    assert_eq!(err.ch, 'é');
}

#[test]
fn lex_lone_equals_and_bang_are_errors() {
    let err = Lexer::new("a = b").tokenize().unwrap_err();
    assert_eq!(err.offset, 2);
    assert_eq!(err.ch, '=');
    let err = Lexer::new("!x").tokenize().unwrap_err();
    assert_eq!(err.offset, 0);
    assert_eq!(err.ch, '!');
}

#[test]
fn lex_number_then_dot_without_digit_is_int_and_dot() {
    assert_eq!(tokens_of("1."), vec![Token::Int(1), Token::Dot]);
    assert_eq!(tokens_of("1.x"), vec![Token::Int(1), Token::Dot, Token::Ident("x".into())]);
}

#[test]
fn lex_large_integer() {
    assert_eq!(
        tokens_of("170141183460469231731687303715884105727"),
        vec![Token::Int(i128::MAX)]
    );
}

#[test]
fn lex_empty_input() {
    assert_eq!(tokens_of(""), vec![]);
    assert_eq!(tokens_of("   \t\n"), vec![]);
}

#[test]
fn integer_literal_beyond_i128_is_reported() {
    assert!(Lexer::new("170141183460469231731687303715884105728 + 1").tokenize_checked().is_none());
    assert!(Lexer::new("$ 999999999999999999999999999999999999999").tokenize_checked().unwrap().is_err());
    let max = Lexer::new("170141183460469231731687303715884105727").tokenize_checked().unwrap().unwrap();
    assert_eq!(max[0].0, Token::Int(i128::MAX));
    assert_eq!(max[0].1, 0..39);
}

#[test]
fn tokens_lie_between_whitespace() {
    let src = "  12 +ab\t<= 3.5 ";
    let toks = Lexer::new(src).tokenize().unwrap();
    let ranges: Vec<std::ops::Range<usize>> = toks.iter().map(|t| t.1.clone()).collect();
    assert_eq!(ranges, vec![2..4, 5..6, 6..8, 9..11, 12..15]);
    for (i, b) in src.bytes().enumerate() {
        let inside = ranges.iter().any(|r| r.contains(&i));
        assert_eq!(inside, !b.is_ascii_whitespace());
    }
    assert!(Lexer::new(" \t\n").tokenize().unwrap().is_empty());
}

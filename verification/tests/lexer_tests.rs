use arith_parser::lexer::tokens;
use arith_parser::lexer::Lexer;
use arith_parser::token::Token as CoreToken;

/// A token with its number literal read as a machine float, for comparing
/// against expected values.
#[derive(Debug, PartialEq)]
enum Token {
    Number(f64),
    Plus,
    Minus,
    Asterisk,
    Slash,
    LParen,
    RParen,
}

fn conv(t: CoreToken) -> Token {
    match t {
        CoreToken::Number(lit) => Token::Number(
            lit.iter().collect::<String>().parse::<f64>().expect("literal must parse"),
        ),
        CoreToken::Plus => Token::Plus,
        CoreToken::Minus => Token::Minus,
        CoreToken::Asterisk => Token::Asterisk,
        CoreToken::Slash => Token::Slash,
        CoreToken::LParen => Token::LParen,
        CoreToken::RParen => Token::RParen,
    }
}

fn conv_opt(o: Option<CoreToken>) -> Option<Token> {
    o.map(conv)
}

#[test]
fn test_number_lexer() {
    let mut lexer = Lexer::new("1 + 2.2 * (-3)");
    assert_eq!(conv_opt(lexer.token()), Some(Token::Number(1_f64)));
    assert_eq!(conv_opt(lexer.token()), Some(Token::Plus));
    assert_eq!(conv_opt(lexer.token()), Some(Token::Number(2.2_f64)));
    assert_eq!(conv_opt(lexer.token()), Some(Token::Asterisk));
    assert_eq!(conv_opt(lexer.token()), Some(Token::LParen));
    assert_eq!(conv_opt(lexer.token()), Some(Token::Minus));
    assert_eq!(conv_opt(lexer.token()), Some(Token::Number(3_f64)));
    assert_eq!(conv_opt(lexer.token()), Some(Token::RParen));
    assert_eq!(conv_opt(lexer.token()), None);
}

#[test]
fn test_number_value_matches_standard_parse() {
    for input in ["0", "1.", ".5", "12.34", "007", "2.25"] {
        let mut lexer = Lexer::new(input);
        let expected: f64 = input.parse().unwrap();
        assert_eq!(conv_opt(lexer.token()), Some(Token::Number(expected)));
        assert_eq!(conv_opt(lexer.token()), None);
    }
}

#[test]
fn test_number_token_keeps_literal_text() {
    let mut lexer = Lexer::new("12.5");
    match lexer.token() {
        Some(CoreToken::Number(lit)) => {
            assert_eq!(lit.iter().collect::<String>(), "12.5");
        }
        other => panic!("expected a number token, got {:?}", other),
    }
}

#[test]
fn test_operator_chars() {
    let mut lexer = Lexer::new("+-*/()");
    assert_eq!(conv_opt(lexer.token()), Some(Token::Plus));
    assert_eq!(conv_opt(lexer.token()), Some(Token::Minus));
    assert_eq!(conv_opt(lexer.token()), Some(Token::Asterisk));
    assert_eq!(conv_opt(lexer.token()), Some(Token::Slash));
    assert_eq!(conv_opt(lexer.token()), Some(Token::LParen));
    assert_eq!(conv_opt(lexer.token()), Some(Token::RParen));
    assert_eq!(conv_opt(lexer.token()), None);
}

#[test]
fn test_malformed_number_dropped_silently() {
    let mut lexer = Lexer::new("1.2.3 + 1");
    assert_eq!(conv_opt(lexer.token()), None);
    assert_eq!(conv_opt(lexer.token()), Some(Token::Plus));
    assert_eq!(conv_opt(lexer.token()), Some(Token::Number(1_f64)));
    assert_eq!(conv_opt(lexer.token()), None);
}

#[test]
fn test_dot_alone_is_not_a_number() {
    let mut lexer = Lexer::new(".");
    assert_eq!(conv_opt(lexer.token()), None);
    assert_eq!(conv_opt(lexer.token()), None);
}

#[test]
fn test_unknown_char_skipped_silently() {
    let mut lexer = Lexer::new("1 @ 2");
    assert_eq!(conv_opt(lexer.token()), Some(Token::Number(1_f64)));
    assert_eq!(conv_opt(lexer.token()), None);
    assert_eq!(conv_opt(lexer.token()), Some(Token::Number(2_f64)));
    assert_eq!(conv_opt(lexer.token()), None);
}

#[test]
fn test_whitespace_skipped() {
    let mut lexer = Lexer::new("\t\n 1  ");
    assert_eq!(conv_opt(lexer.token()), Some(Token::Number(1_f64)));
    assert_eq!(conv_opt(lexer.token()), None);
}

#[test]
fn test_empty_input_yields_absence() {
    let mut lexer = Lexer::new("");
    assert_eq!(conv_opt(lexer.token()), None);
    assert_eq!(conv_opt(lexer.token()), None);
}

#[test]
fn test_relex_yields_same_sequence() {
    let input = "1 + 2.2 * (-3)";
    let first = tokens(input);
    let second = tokens(input);
    assert_eq!(first, second);
    assert_eq!(first.len(), 8);

    let mut by_hand = Vec::new();
    let mut lexer = Lexer::new(input);
    while let Some(t) = lexer.token() {
        by_hand.push(t);
    }
    assert_eq!(by_hand, tokens(input));
}

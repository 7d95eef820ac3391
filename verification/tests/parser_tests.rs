use arith_parser::lexer::Lexer;
use arith_parser::parser::Expression as CoreExpression;
use arith_parser::parser::Parser;
use arith_parser::token::Token as CoreToken;

/// A token with its number literal read as a machine float.
#[derive(Debug, PartialEq)]
enum Token {
    Number(f64),
    Plus,
    Minus,
    Asterisk,
    Slash,
    LParen,
    RParen,
}

/// An expression tree with number leaves read as machine floats.
#[derive(Debug, PartialEq)]
enum Expression {
    Number(f64),
    PrefixExpression { operator: Token, right: Box<Expression> },
    InfixExpression { left: Box<Expression>, operator: Token, right: Box<Expression> },
}

fn conv_token(t: CoreToken) -> Token {
    match t {
        CoreToken::Number(lit) => Token::Number(
            lit.iter().collect::<String>().parse::<f64>().expect("literal must parse"),
        ),
        CoreToken::Plus => Token::Plus,
        CoreToken::Minus => Token::Minus,
        CoreToken::Asterisk => Token::Asterisk,
        CoreToken::Slash => Token::Slash,
        CoreToken::LParen => Token::LParen,
        CoreToken::RParen => Token::RParen,
    }
}

fn conv_expr(e: CoreExpression) -> Expression {
    match e {
        CoreExpression::Number(lit) => Expression::Number(
            lit.iter().collect::<String>().parse::<f64>().expect("literal must parse"),
        ),
        CoreExpression::PrefixExpression { operator, right } => Expression::PrefixExpression {
            operator: conv_token(operator),
            right: Box::new(conv_expr(*right)),
        },
        CoreExpression::InfixExpression { left, operator, right } => Expression::InfixExpression {
            left: Box::new(conv_expr(*left)),
            operator: conv_token(operator),
            right: Box::new(conv_expr(*right)),
        },
    }
}

fn parse_str(input: &str) -> Option<Expression> {
    let lexer = Lexer::new(input);
    let mut parser = Parser::new(lexer);
    parser.parse().map(|b| conv_expr(*b))
}

fn do_parser(input: &str, expect: &str) {
    let lexer = Lexer::new(input);
    let mut parser = Parser::new(lexer);
    assert_eq!(format!("{:?}", parser.parse().map(|b| conv_expr(*b))), expect);
}

fn evaluate(e: &Expression) -> f64 {
    match e {
        Expression::Number(v) => *v,
        Expression::PrefixExpression { operator, right } => {
            let right = evaluate(right);
            match operator {
                Token::Plus => right,
                Token::Minus => -right,
                other => panic!("unknown operator: {:?}", other),
            }
        }
        Expression::InfixExpression { left, operator, right } => {
            let left = evaluate(left);
            let right = evaluate(right);
            match operator {
                Token::Plus => left + right,
                Token::Minus => left - right,
                Token::Asterisk => left * right,
                Token::Slash => left / right,
                other => panic!("unknown operator: {:?}", other),
            }
        }
    }
}

#[test]
fn test_parser() {
    do_parser(
        "1 + 2",
        r#"Some(InfixExpression { left: Number(1.0), operator: Plus, right: Number(2.0) })"#,
    );
    do_parser(
        "- 1 + 2 * 3",
        r#"Some(InfixExpression { left: PrefixExpression { operator: Minus, right: Number(1.0) }, operator: Plus, right: InfixExpression { left: Number(2.0), operator: Asterisk, right: Number(3.0) } })"#,
    );

    do_parser(
        "1 * (2 + 3)",
        r#"Some(InfixExpression { left: Number(1.0), operator: Asterisk, right: InfixExpression { left: Number(2.0), operator: Plus, right: Number(3.0) } })"#,
    );
}

#[test]
fn test_parse_simple_sum() {
    assert_eq!(
        parse_str("1 + 2"),
        Some(Expression::InfixExpression {
            left: Box::new(Expression::Number(1.0)),
            operator: Token::Plus,
            right: Box::new(Expression::Number(2.0)),
        })
    );
}

#[test]
fn test_parse_unary_minus_binds_tightest() {
    assert_eq!(
        parse_str("- 1 + 2 * 3"),
        Some(Expression::InfixExpression {
            left: Box::new(Expression::PrefixExpression {
                operator: Token::Minus,
                right: Box::new(Expression::Number(1.0)),
            }),
            operator: Token::Plus,
            right: Box::new(Expression::InfixExpression {
                left: Box::new(Expression::Number(2.0)),
                operator: Token::Asterisk,
                right: Box::new(Expression::Number(3.0)),
            }),
        })
    );
}

#[test]
fn test_parse_grouping_overrides_precedence() {
    assert_eq!(
        parse_str("1 * (2 + 3)"),
        Some(Expression::InfixExpression {
            left: Box::new(Expression::Number(1.0)),
            operator: Token::Asterisk,
            right: Box::new(Expression::InfixExpression {
                left: Box::new(Expression::Number(2.0)),
                operator: Token::Plus,
                right: Box::new(Expression::Number(3.0)),
            }),
        })
    );
}

#[test]
fn test_parse_missing_rparen_yields_absence() {
    assert_eq!(parse_str("(1 + 2"), None);
}

#[test]
fn test_parse_empty_yields_absence() {
    assert_eq!(parse_str(""), None);
}

#[test]
fn test_parse_leading_operator_yields_absence() {
    assert_eq!(parse_str("+ 1"), None);
    assert_eq!(parse_str("* 2"), None);
    assert_eq!(parse_str(")"), None);
}

#[test]
fn test_parse_lone_minus_yields_absence() {
    assert_eq!(parse_str("-"), None);
}

#[test]
fn test_evaluate_precedence() {
    assert_eq!(evaluate(&parse_str("1 + 2 * 3").unwrap()), 7.0);
}

#[test]
fn test_evaluate_grouped() {
    assert_eq!(evaluate(&parse_str("(1 + 2) * 3").unwrap()), 9.0);
}

#[test]
fn test_evaluate_left_associativity() {
    assert_eq!(evaluate(&parse_str("1 - 2 - 3").unwrap()), -4.0);
    assert_eq!(evaluate(&parse_str("8 / 2 / 2").unwrap()), 2.0);
}

#[test]
fn test_evaluate_mixed_expression() {
    let expected: f64 = 1.0 + 2.2 * (-3.0);
    assert_eq!(evaluate(&parse_str("1 + 2.2 * (-3)").unwrap()), expected);
}

use vstd::prelude::*;

verus! {

/// An atomic lexical unit of an arithmetic expression.
///
/// A `Number` carries the literal text it was read from: a run of ASCII
/// digits and `.` characters that reads as one decimal number. Keeping the
/// text keeps the value exact; callers outside the crate turn it into a
/// machine float when they need one.
#[derive(Debug, PartialEq)]
pub enum Token {
    Number(Vec<char>),
    Plus,
    Minus,
    Asterisk,
    Slash,
    LParen,
    RParen,
}

/// The mathematical model of a [`Token`]: the same variants, with the
/// number literal abstracted to a `Seq<char>`.
pub enum TokenModel {
    Number(Seq<char>),
    Plus,
    Minus,
    Asterisk,
    Slash,
    LParen,
    RParen,
}

impl View for Token {
    type V = TokenModel;

    open spec fn view(&self) -> TokenModel {
        match self {
            Token::Number(lit) => TokenModel::Number(lit@),
            Token::Plus => TokenModel::Plus,
            Token::Minus => TokenModel::Minus,
            Token::Asterisk => TokenModel::Asterisk,
            Token::Slash => TokenModel::Slash,
            Token::LParen => TokenModel::LParen,
            Token::RParen => TokenModel::RParen,
        }
    }
}

/// The model of an optional token, used to state what the lexer hands out.
pub open spec fn opt_token_model(o: Option<Token>) -> Option<TokenModel> {
    match o {
        Option::Some(t) => Option::Some(t@),
        Option::None => Option::None,
    }
}

/// A numeric code for each token variant, ignoring any payload. Two tokens
/// are of the same kind exactly when their codes agree.
pub open spec fn kind_of(t: TokenModel) -> u8 {
    match t {
        TokenModel::Number(_) => 0,
        TokenModel::Plus => 1,
        TokenModel::Minus => 2,
        TokenModel::Asterisk => 3,
        TokenModel::Slash => 4,
        TokenModel::LParen => 5,
        TokenModel::RParen => 6,
    }
}

/// The four tokens that may stand between two operands.
pub open spec fn is_infix_op(t: TokenModel) -> bool {
    match t {
        TokenModel::Plus | TokenModel::Minus | TokenModel::Asterisk | TokenModel::Slash => true,
        _ => false,
    }
}

} // verus!

use vstd::prelude::*;

use crate::lexer::lemma_lex_step;
use crate::lexer::lex_step;
use crate::lexer::Lexer;
use crate::token::is_infix_op;
use crate::token::kind_of;
use crate::token::opt_token_model;
use crate::token::Token;
use crate::token::TokenModel;

verus! {

// ---------------------------------------------------------------------------
// Expression trees and their model.
// ---------------------------------------------------------------------------

/// A node of the parsed expression tree. Each node owns its children; the
/// tree is built bottom-up and never changed afterwards.
#[derive(Debug)]
pub enum Expression {
    Number(Vec<char>),
    PrefixExpression { operator: Token, right: Box<Expression> },
    InfixExpression { left: Box<Expression>, operator: Token, right: Box<Expression> },
}

/// The mathematical model of an [`Expression`]: the same shape, with number
/// literals abstracted to sequences.
pub enum ExprModel {
    Number(Seq<char>),
    PrefixExpression { operator: TokenModel, right: Box<ExprModel> },
    InfixExpression { left: Box<ExprModel>, operator: TokenModel, right: Box<ExprModel> },
}

/// The model of an expression tree, node by node.
pub open spec fn expr_model(e: Expression) -> ExprModel
    decreases e,
{
    match e {
        Expression::Number(lit) => ExprModel::Number(lit@),
        Expression::PrefixExpression { operator, right } => ExprModel::PrefixExpression {
            operator: operator@,
            right: Box::new(expr_model(*right)),
        },
        Expression::InfixExpression { left, operator, right } => ExprModel::InfixExpression {
            left: Box::new(expr_model(*left)),
            operator: operator@,
            right: Box::new(expr_model(*right)),
        },
    }
}

impl View for Expression {
    type V = ExprModel;

    open spec fn view(&self) -> ExprModel {
        expr_model(*self)
    }
}

/// The model of an optional parse result.
pub open spec fn opt_expr_model(o: Option<Box<Expression>>) -> Option<ExprModel> {
    match o {
        Option::Some(e) => Option::Some(e@),
        Option::None => Option::None,
    }
}

// ---------------------------------------------------------------------------
// Precedence.
// ---------------------------------------------------------------------------

/// The rank of a token that cannot continue an expression.
pub const PREC_LOWEST: u8 = 0;

/// The rank of `+` and `-`.
pub const PREC_SUM: u8 = 1;

/// The rank of `*` and `/`, strictly above `+` and `-`.
pub const PREC_PRODUCT: u8 = 2;

/// The rank at which a unary operand binds, strictly above every infix
/// operator.
pub const PREC_PREFIX: u8 = 3;

/// The binding strength of a token met in infix position.
pub open spec fn prec_of(t: TokenModel) -> u8 {
    match t {
        TokenModel::Plus | TokenModel::Minus => PREC_SUM,
        TokenModel::Asterisk | TokenModel::Slash => PREC_PRODUCT,
        _ => PREC_LOWEST,
    }
}

/// The binding strength of an optional token; absence binds lowest.
pub open spec fn opt_prec(o: Option<TokenModel>) -> u8 {
    match o {
        Option::Some(t) => prec_of(t),
        Option::None => PREC_LOWEST,
    }
}

// ---------------------------------------------------------------------------
// The model of parsing. The parser walks the token stream that the lexer
// yields; a position in that stream is the character cursor at which the
// lexer reads the token, so the model below works directly on the input
// text through `lex_step`.
// ---------------------------------------------------------------------------

/// The token the lexer reads at cursor `c`, if any.
pub open spec fn cur_of(s: Seq<char>, c: nat) -> Option<TokenModel> {
    lex_step(s, c).0
}

/// The character cursor of the token after the one read at `c`.
pub open spec fn next_cursor(s: Seq<char>, c: nat) -> nat {
    lex_step(s, c).1
}

/// The token one past the token read at `c`, if any.
pub open spec fn peek_of(s: Seq<char>, c: nat) -> Option<TokenModel> {
    cur_of(s, next_cursor(s, c))
}

/// What one production of the model parser yields: no tree, or a tree
/// together with the cursor of its last token. `NoFuel` only reports that
/// the recursion bound below was too small; it never reaches a caller,
/// since `parse_fuel` is large enough for every input.
pub enum Parsed {
    Reject,
    Accept(ExprModel, nat),
    NoFuel,
}

/// A recursion bound that is ample for an input of this length: parsing
/// consumes at least one token, hence at least one character, every two
/// steps.
pub open spec fn parse_fuel(s: Seq<char>) -> nat {
    2 * s.len() + 2
}

/// The prefix production at cursor `c`: a number is a leaf; a minus takes a
/// whole operand at `PREC_PREFIX`; an opening parenthesis takes a whole
/// expression at `PREC_LOWEST` and demands a closing parenthesis right
/// after it; every other token, and absence, rejects.
pub open spec fn sp_prefix(s: Seq<char>, c: nat, fuel: nat) -> Parsed
    decreases fuel, 1int,
{
    if fuel == 0 {
        Parsed::NoFuel
    } else {
        match cur_of(s, c) {
            Option::None => Parsed::Reject,
            Option::Some(t) => match t {
                TokenModel::Number(lit) => Parsed::Accept(ExprModel::Number(lit), c),
                TokenModel::Minus => match sp_expr(
                    s,
                    next_cursor(s, c),
                    PREC_PREFIX,
                    (fuel - 1) as nat,
                ) {
                    Parsed::Accept(r, c2) => Parsed::Accept(
                        ExprModel::PrefixExpression {
                            operator: TokenModel::Minus,
                            right: Box::new(r),
                        },
                        c2,
                    ),
                    other => other,
                },
                TokenModel::LParen => match sp_expr(
                    s,
                    next_cursor(s, c),
                    PREC_LOWEST,
                    (fuel - 1) as nat,
                ) {
                    Parsed::Accept(e, c2) => if peek_of(s, c2) == Option::Some(
                        TokenModel::RParen,
                    ) {
                        Parsed::Accept(e, next_cursor(s, c2))
                    } else {
                        Parsed::Reject
                    },
                    other => other,
                },
                _ => Parsed::Reject,
            },
        }
    }
}

/// A whole expression at cursor `c`, for callers that bind with strength
/// `prec`: a prefix operand, extended by every infix operator that binds
/// strictly tighter than `prec`.
pub open spec fn sp_expr(s: Seq<char>, c: nat, prec: u8, fuel: nat) -> Parsed
    decreases fuel, 2int,
{
    if fuel == 0 {
        Parsed::NoFuel
    } else {
        match sp_prefix(s, c, fuel) {
            Parsed::Accept(e, c2) => sp_loop(s, c2, prec, e, fuel),
            other => other,
        }
    }
}

/// The infix loop: `left` ends at cursor `c`; while the token after it is
/// an operator binding strictly tighter than `prec`, take that operator and
/// a right operand at the operator's own strength, and fold them into
/// `left` from the left.
pub open spec fn sp_loop(s: Seq<char>, c: nat, prec: u8, left: ExprModel, fuel: nat) -> Parsed
    decreases fuel, 0int,
{
    if fuel == 0 {
        Parsed::NoFuel
    } else {
        match peek_of(s, c) {
            Option::Some(op) => if prec_of(op) > prec {
                let c_op = next_cursor(s, c);
                match sp_expr(s, next_cursor(s, c_op), prec_of(op), (fuel - 1) as nat) {
                    Parsed::Accept(r, c2) => sp_loop(
                        s,
                        c2,
                        prec,
                        ExprModel::InfixExpression {
                            left: Box::new(left),
                            operator: op,
                            right: Box::new(r),
                        },
                        (fuel - 1) as nat,
                    ),
                    other => other,
                }
            } else {
                Parsed::Accept(left, c)
            },
            Option::None => Parsed::Accept(left, c),
        }
    }
}

/// The prefix production with ample fuel.
pub open spec fn prefix_from(s: Seq<char>, c: nat) -> Parsed {
    sp_prefix(s, c, parse_fuel(s))
}

/// A whole expression with ample fuel.
pub open spec fn expr_from(s: Seq<char>, c: nat, prec: u8) -> Parsed {
    sp_expr(s, c, prec, parse_fuel(s))
}

/// The infix loop with ample fuel.
pub open spec fn infix_from(s: Seq<char>, c: nat, prec: u8, left: ExprModel) -> Parsed {
    sp_loop(s, c, prec, left, parse_fuel(s))
}

/// What parsing a whole input yields: the tree of the expression that
/// starts at its first token, or nothing when no such expression exists.
pub open spec fn parse_of(s: Seq<char>) -> Option<ExprModel> {
    match expr_from(s, 0, PREC_LOWEST) {
        Parsed::Accept(e, _) => Option::Some(e),
        _ => Option::None,
    }
}

// ---------------------------------------------------------------------------
// Facts about the model parser: where accepted parses end, that more fuel
// never changes a settled outcome, and that `parse_fuel` always settles it.
// ---------------------------------------------------------------------------

proof fn lemma_sp_prefix_bounds(s: Seq<char>, c: nat, fuel: nat)
    requires
        c <= s.len(),
    ensures
        match sp_prefix(s, c, fuel) {
            Parsed::Accept(_, c2) => c <= c2 <= s.len(),
            _ => true,
        },
    decreases fuel, 1int,
{
    if fuel != 0 {
        lemma_lex_step(s, c);
        match cur_of(s, c) {
            Option::Some(TokenModel::Minus) => {
                lemma_sp_expr_bounds(s, next_cursor(s, c), PREC_PREFIX, (fuel - 1) as nat);
            },
            Option::Some(TokenModel::LParen) => {
                let c1 = next_cursor(s, c);
                lemma_sp_expr_bounds(s, c1, PREC_LOWEST, (fuel - 1) as nat);
                match sp_expr(s, c1, PREC_LOWEST, (fuel - 1) as nat) {
                    Parsed::Accept(_, c2) => {
                        lemma_lex_step(s, c2);
                    },
                    _ => {},
                }
            },
            _ => {},
        }
    }
}

proof fn lemma_sp_expr_bounds(s: Seq<char>, c: nat, prec: u8, fuel: nat)
    requires
        c <= s.len(),
    ensures
        match sp_expr(s, c, prec, fuel) {
            Parsed::Accept(_, c2) => c <= c2 <= s.len(),
            _ => true,
        },
    decreases fuel, 2int,
{
    if fuel != 0 {
        lemma_sp_prefix_bounds(s, c, fuel);
        match sp_prefix(s, c, fuel) {
            Parsed::Accept(e, c2) => {
                lemma_sp_loop_bounds(s, c2, prec, e, fuel);
            },
            _ => {},
        }
    }
}

proof fn lemma_sp_loop_bounds(s: Seq<char>, c: nat, prec: u8, left: ExprModel, fuel: nat)
    requires
        c <= s.len(),
    ensures
        match sp_loop(s, c, prec, left, fuel) {
            Parsed::Accept(_, c2) => c <= c2 <= s.len(),
            _ => true,
        },
    decreases fuel, 0int,
{
    if fuel != 0 {
        lemma_lex_step(s, c);
        let c_op = next_cursor(s, c);
        lemma_lex_step(s, c_op);
        match peek_of(s, c) {
            Option::Some(op) => if prec_of(op) > prec {
                let c_r = next_cursor(s, c_op);
                lemma_sp_expr_bounds(s, c_r, prec_of(op), (fuel - 1) as nat);
                match sp_expr(s, c_r, prec_of(op), (fuel - 1) as nat) {
                    Parsed::Accept(r, c2) => {
                        lemma_sp_loop_bounds(
                            s,
                            c2,
                            prec,
                            ExprModel::InfixExpression {
                                left: Box::new(left),
                                operator: op,
                                right: Box::new(r),
                            },
                            (fuel - 1) as nat,
                        );
                    },
                    _ => {},
                }
            } else {
            },
            Option::None => {},
        }
    }
}

proof fn lemma_sp_prefix_mono(s: Seq<char>, c: nat, f1: nat, f2: nat)
    requires
        f1 <= f2,
        !(sp_prefix(s, c, f1) is NoFuel),
    ensures
        sp_prefix(s, c, f2) == sp_prefix(s, c, f1),
    decreases f1, 1int,
{
    match cur_of(s, c) {
        Option::Some(TokenModel::Minus) => {
            if !(sp_expr(s, next_cursor(s, c), PREC_PREFIX, (f1 - 1) as nat) is NoFuel) {
                lemma_sp_expr_mono(s, next_cursor(s, c), PREC_PREFIX, (f1 - 1) as nat, (f2
                    - 1) as nat);
            }
        },
        Option::Some(TokenModel::LParen) => {
            if !(sp_expr(s, next_cursor(s, c), PREC_LOWEST, (f1 - 1) as nat) is NoFuel) {
                lemma_sp_expr_mono(s, next_cursor(s, c), PREC_LOWEST, (f1 - 1) as nat, (f2
                    - 1) as nat);
            }
        },
        _ => {},
    }
}

proof fn lemma_sp_expr_mono(s: Seq<char>, c: nat, prec: u8, f1: nat, f2: nat)
    requires
        f1 <= f2,
        !(sp_expr(s, c, prec, f1) is NoFuel),
    ensures
        sp_expr(s, c, prec, f2) == sp_expr(s, c, prec, f1),
    decreases f1, 2int,
{
    lemma_sp_prefix_mono(s, c, f1, f2);
    match sp_prefix(s, c, f1) {
        Parsed::Accept(e, c2) => {
            lemma_sp_loop_mono(s, c2, prec, e, f1, f2);
        },
        _ => {},
    }
}

proof fn lemma_sp_loop_mono(s: Seq<char>, c: nat, prec: u8, left: ExprModel, f1: nat, f2: nat)
    requires
        f1 <= f2,
        !(sp_loop(s, c, prec, left, f1) is NoFuel),
    ensures
        sp_loop(s, c, prec, left, f2) == sp_loop(s, c, prec, left, f1),
    decreases f1, 0int,
{
    match peek_of(s, c) {
        Option::Some(op) => if prec_of(op) > prec {
            let c_r = next_cursor(s, next_cursor(s, c));
            if !(sp_expr(s, c_r, prec_of(op), (f1 - 1) as nat) is NoFuel) {
                lemma_sp_expr_mono(s, c_r, prec_of(op), (f1 - 1) as nat, (f2 - 1) as nat);
                match sp_expr(s, c_r, prec_of(op), (f1 - 1) as nat) {
                    Parsed::Accept(r, c2) => {
                        lemma_sp_loop_mono(
                            s,
                            c2,
                            prec,
                            ExprModel::InfixExpression {
                                left: Box::new(left),
                                operator: op,
                                right: Box::new(r),
                            },
                            (f1 - 1) as nat,
                            (f2 - 1) as nat,
                        );
                    },
                    _ => {},
                }
            }
        } else {
        },
        Option::None => {},
    }
}

proof fn lemma_sp_prefix_suff(s: Seq<char>, c: nat, fuel: nat)
    requires
        c <= s.len(),
        fuel >= 2 * (s.len() - c) + 2,
    ensures
        !(sp_prefix(s, c, fuel) is NoFuel),
    decreases fuel, 1int,
{
    lemma_lex_step(s, c);
    match cur_of(s, c) {
        Option::Some(TokenModel::Minus) => {
            lemma_sp_expr_suff(s, next_cursor(s, c), PREC_PREFIX, (fuel - 1) as nat);
        },
        Option::Some(TokenModel::LParen) => {
            lemma_sp_expr_suff(s, next_cursor(s, c), PREC_LOWEST, (fuel - 1) as nat);
        },
        _ => {},
    }
}

proof fn lemma_sp_expr_suff(s: Seq<char>, c: nat, prec: u8, fuel: nat)
    requires
        c <= s.len(),
        fuel >= 2 * (s.len() - c) + 2,
    ensures
        !(sp_expr(s, c, prec, fuel) is NoFuel),
    decreases fuel, 2int,
{
    lemma_sp_prefix_suff(s, c, fuel);
    lemma_sp_prefix_bounds(s, c, fuel);
    match sp_prefix(s, c, fuel) {
        Parsed::Accept(e, c2) => {
            lemma_sp_loop_suff(s, c2, prec, e, fuel);
        },
        _ => {},
    }
}

proof fn lemma_sp_loop_suff(s: Seq<char>, c: nat, prec: u8, left: ExprModel, fuel: nat)
    requires
        c <= s.len(),
        fuel >= 2 * (s.len() - c) + 1,
    ensures
        !(sp_loop(s, c, prec, left, fuel) is NoFuel),
    decreases fuel, 0int,
{
    lemma_lex_step(s, c);
    let c_op = next_cursor(s, c);
    lemma_lex_step(s, c_op);
    match peek_of(s, c) {
        Option::Some(op) => if prec_of(op) > prec {
            let c_r = next_cursor(s, c_op);
            lemma_sp_expr_suff(s, c_r, prec_of(op), (fuel - 1) as nat);
            lemma_sp_expr_bounds(s, c_r, prec_of(op), (fuel - 1) as nat);
            match sp_expr(s, c_r, prec_of(op), (fuel - 1) as nat) {
                Parsed::Accept(r, c2) => {
                    lemma_sp_loop_suff(
                        s,
                        c2,
                        prec,
                        ExprModel::InfixExpression {
                            left: Box::new(left),
                            operator: op,
                            right: Box::new(r),
                        },
                        (fuel - 1) as nat,
                    );
                },
                _ => {},
            }
        } else {
        },
        Option::None => {},
    }
}

/// Where an accepted expression ends: between its starting cursor and the
/// end of the input.
proof fn lemma_expr_from_bounds(s: Seq<char>, c: nat, prec: u8)
    requires
        c <= s.len(),
    ensures
        match expr_from(s, c, prec) {
            Parsed::Accept(_, c2) => c <= c2 <= s.len(),
            _ => true,
        },
{
    lemma_sp_expr_bounds(s, c, prec, parse_fuel(s));
}

/// Unfolding the prefix production at a minus token.
proof fn lemma_prefix_from_minus(s: Seq<char>, c: nat)
    requires
        c <= s.len(),
        cur_of(s, c) == Option::Some(TokenModel::Minus),
    ensures
        prefix_from(s, c) == (match expr_from(s, next_cursor(s, c), PREC_PREFIX) {
            Parsed::Accept(r, c2) => Parsed::Accept(
                ExprModel::PrefixExpression { operator: TokenModel::Minus, right: Box::new(r) },
                c2,
            ),
            other => other,
        }),
{
    let fuel = parse_fuel(s);
    let c1 = next_cursor(s, c);
    lemma_lex_step(s, c);
    lemma_sp_expr_suff(s, c1, PREC_PREFIX, (fuel - 1) as nat);
    lemma_sp_expr_mono(s, c1, PREC_PREFIX, (fuel - 1) as nat, fuel);
}

/// Unfolding the prefix production at an opening parenthesis.
proof fn lemma_prefix_from_lparen(s: Seq<char>, c: nat)
    requires
        c <= s.len(),
        cur_of(s, c) == Option::Some(TokenModel::LParen),
    ensures
        prefix_from(s, c) == (match expr_from(s, next_cursor(s, c), PREC_LOWEST) {
            Parsed::Accept(e, c2) => if peek_of(s, c2) == Option::Some(TokenModel::RParen) {
                Parsed::Accept(e, next_cursor(s, c2))
            } else {
                Parsed::Reject
            },
            other => other,
        }),
{
    let fuel = parse_fuel(s);
    let c1 = next_cursor(s, c);
    lemma_lex_step(s, c);
    lemma_sp_expr_suff(s, c1, PREC_LOWEST, (fuel - 1) as nat);
    lemma_sp_expr_mono(s, c1, PREC_LOWEST, (fuel - 1) as nat, fuel);
}

/// Unfolding one round of the infix loop.
proof fn lemma_infix_from_unfold(s: Seq<char>, c: nat, prec: u8, left: ExprModel)
    requires
        c <= s.len(),
    ensures
        infix_from(s, c, prec, left) == (match peek_of(s, c) {
            Option::Some(op) => if prec_of(op) > prec {
                match expr_from(s, next_cursor(s, next_cursor(s, c)), prec_of(op)) {
                    Parsed::Accept(r, c2) => infix_from(
                        s,
                        c2,
                        prec,
                        ExprModel::InfixExpression {
                            left: Box::new(left),
                            operator: op,
                            right: Box::new(r),
                        },
                    ),
                    other => other,
                }
            } else {
                Parsed::Accept(left, c)
            },
            Option::None => Parsed::Accept(left, c),
        }),
{
    let fuel = parse_fuel(s);
    lemma_lex_step(s, c);
    let c_op = next_cursor(s, c);
    lemma_lex_step(s, c_op);
    match peek_of(s, c) {
        Option::Some(op) => if prec_of(op) > prec {
            let c_r = next_cursor(s, c_op);
            lemma_sp_expr_suff(s, c_r, prec_of(op), (fuel - 1) as nat);
            lemma_sp_expr_mono(s, c_r, prec_of(op), (fuel - 1) as nat, fuel);
            lemma_sp_expr_bounds(s, c_r, prec_of(op), (fuel - 1) as nat);
            match sp_expr(s, c_r, prec_of(op), (fuel - 1) as nat) {
                Parsed::Accept(r, c2) => {
                    let folded = ExprModel::InfixExpression {
                        left: Box::new(left),
                        operator: op,
                        right: Box::new(r),
                    };
                    lemma_sp_loop_suff(s, c2, prec, folded, (fuel - 1) as nat);
                    lemma_sp_loop_mono(s, c2, prec, folded, (fuel - 1) as nat, fuel);
                },
                _ => {},
            }
        } else {
        },
        Option::None => {},
    }
}

/// Parsing an empty input yields nothing: there is no first token for an
/// expression to start from.
pub proof fn lemma_parse_empty()
    ensures
        parse_of(Seq::<char>::empty()) == Option::None::<ExprModel>,
{
    let s = Seq::<char>::empty();
    assert(cur_of(s, 0) is None);
    assert(sp_prefix(s, 0, parse_fuel(s)) == Parsed::Reject);
}

// ---------------------------------------------------------------------------
// The parser.
// ---------------------------------------------------------------------------

/// What a completed infix production leaves behind: on success, the folded
/// tree whose right operand the model parser accepts at the operator's own
/// strength, ending where that operand ends; on failure, the model parser
/// rejects the right operand.
pub open spec fn infix_post(
    s: Seq<char>,
    c: nat,
    op: TokenModel,
    leftm: ExprModel,
    r: Option<Box<Expression>>,
    post: Parser,
) -> bool {
    &&& (r is None ==> expr_from(s, next_cursor(s, c), prec_of(op)) == Parsed::Reject)
    &&& (r matches Some(e) ==> match expr_from(s, next_cursor(s, c), prec_of(op)) {
        Parsed::Accept(rm, c2) => e@ == ExprModel::InfixExpression {
            left: Box::new(leftm),
            operator: op,
            right: Box::new(rm),
        } && post.cursor() == c2 && post.has_current(),
        _ => false,
    })
}

/// A pull parser over a [`Lexer`]: it holds the token under consideration
/// and one token of lookahead, and draws more from the lexer as it goes.
pub struct Parser {
    lexer: Lexer,
    current: Option<Token>,
    peek: Option<Token>,
    at: Ghost<nat>,
}

impl Parser {
    /// The characters the underlying lexer reads.
    pub closed spec fn inp(&self) -> Seq<char> {
        self.lexer.inp()
    }

    /// The cursor at which the lexer read the token under consideration.
    pub closed spec fn cursor(&self) -> nat {
        self.at@
    }

    /// Whether a token is under consideration.
    pub closed spec fn has_current(&self) -> bool {
        self.current is Some
    }

    /// The parser's buffers agree with the lexer's text at its cursor: the
    /// current token is what one lexer step reads there, the lookahead is
    /// what the step after that reads, and the lexer stands past both.
    pub closed spec fn wf(&self) -> bool {
        &&& self.lexer.wf()
        &&& self.at@ <= self.inp().len()
        &&& opt_token_model(self.current) == cur_of(self.inp(), self.at@)
        &&& opt_token_model(self.peek) == peek_of(self.inp(), self.at@)
        &&& self.lexer.pos() == next_cursor(self.inp(), next_cursor(self.inp(), self.at@))
    }

    /// A parser over `lexer`, with the first two tokens already drawn.
    pub fn new(lexer: Lexer) -> (r: Parser)
        requires
            lexer.wf(),
        ensures
            r.wf(),
            r.inp() == lexer.inp(),
            r.cursor() == lexer.pos(),
    {
        let mut lx = lexer;
        let ghost c0: nat = lx.pos();
        proof {
            lx.lemma_wf();
            lemma_lex_step(lx.inp(), c0);
        }
        let current = lx.token();
        proof {
            lemma_lex_step(lx.inp(), lx.pos());
        }
        let peek = lx.token();
        Parser { lexer: lx, current, peek, at: Ghost(c0) }
    }

    /// Parse one whole expression from the tokens not yet consumed. The
    /// result is exactly what the model parser yields there: a tree when
    /// the remaining tokens start with an expression, and absence when they
    /// do not — in particular on empty input, on a token that cannot start
    /// an expression, and on a missing closing parenthesis.
    pub fn parse(&mut self) -> (r: Option<Box<Expression>>)
        requires
            old(self).wf(),
        ensures
            final(self).wf(),
            final(self).inp() == old(self).inp(),
            r matches Some(e) ==> expr_from(old(self).inp(), old(self).cursor(), PREC_LOWEST)
                == Parsed::Accept(e@, final(self).cursor()),
            r is None ==> expr_from(old(self).inp(), old(self).cursor(), PREC_LOWEST)
                == Parsed::Reject,
            old(self).cursor() == 0 ==> opt_expr_model(r) == parse_of(old(self).inp()),
    {
        self.parse_expression(PREC_LOWEST)
    }

    /// A prefix operand, extended by every infix operator binding strictly
    /// tighter than `precedence`.
    #[verifier::loop_isolation(false)]
    fn parse_expression(&mut self, precedence: u8) -> (r: Option<Box<Expression>>)
        requires
            old(self).wf(),
        ensures
            final(self).wf(),
            final(self).inp() == old(self).inp(),
            old(self).cursor() <= final(self).cursor(),
            r is None ==> expr_from(old(self).inp(), old(self).cursor(), precedence)
                == Parsed::Reject,
            r matches Some(e) ==> expr_from(old(self).inp(), old(self).cursor(), precedence)
                == Parsed::Accept(e@, final(self).cursor()) && final(self).has_current(),
        decreases old(self).inp().len() - old(self).cursor(), 3int,
    {
        let ghost s = old(self).inp();
        let ghost c0: nat = old(self).cursor();
        let mut left = match self.parse_prefix() {
            Option::Some(l) => l,
            Option::None => {
                return Option::None;
            },
        };
        while self.peek.is_some() && precedence < self.peek_precedence()
            invariant
                self.wf(),
                self.inp() == s,
                c0 <= self.cursor(),
                self.has_current(),
                infix_from(s, self.cursor(), precedence, left@) == expr_from(s, c0, precedence),
            decreases s.len() - self.cursor(),
        {
            let ghost c_pre: nat = self.cursor();
            let ghost op = peek_of(s, c_pre).unwrap();
            proof {
                lemma_infix_from_unfold(s, c_pre, precedence, left@);
                lemma_lex_step(s, c_pre);
                lemma_lex_step(s, next_cursor(s, c_pre));
                lemma_expr_from_bounds(
                    s,
                    next_cursor(s, next_cursor(s, c_pre)),
                    prec_of(op),
                );
            }
            self.next();
            left = match self.parse_infix(left) {
                Option::Some(l) => l,
                Option::None => {
                    return Option::None;
                },
            };
        }
        Option::Some(left)
    }

    /// Dispatch on the token under consideration: only a number, a minus
    /// or an opening parenthesis can begin an expression.
    fn parse_prefix(&mut self) -> (r: Option<Box<Expression>>)
        requires
            old(self).wf(),
        ensures
            final(self).wf(),
            final(self).inp() == old(self).inp(),
            old(self).cursor() <= final(self).cursor(),
            r is None ==> prefix_from(old(self).inp(), old(self).cursor()) == Parsed::Reject,
            r matches Some(e) ==> prefix_from(old(self).inp(), old(self).cursor())
                == Parsed::Accept(e@, final(self).cursor()) && final(self).has_current(),
        decreases old(self).inp().len() - old(self).cursor(), 2int,
    {
        let t = match self.current.as_ref() {
            Option::Some(t) => t,
            Option::None => {
                return Option::None;
            },
        };
        match t {
            Token::Minus => self.parse_minus(),
            Token::Number(_) => self.parse_number(),
            Token::LParen => self.parse_grouped_expression(),
            _ => Option::None,
        }
    }

    /// A unary minus: take the minus, then a whole operand at
    /// `PREC_PREFIX`, so that it binds tighter than any infix operator.
    fn parse_minus(&mut self) -> (r: Option<Box<Expression>>)
        requires
            old(self).wf(),
            opt_token_model(old(self).current) == Option::Some(TokenModel::Minus),
        ensures
            final(self).wf(),
            final(self).inp() == old(self).inp(),
            old(self).cursor() <= final(self).cursor(),
            r is None ==> prefix_from(old(self).inp(), old(self).cursor()) == Parsed::Reject,
            r matches Some(e) ==> prefix_from(old(self).inp(), old(self).cursor())
                == Parsed::Accept(e@, final(self).cursor()) && final(self).has_current(),
        decreases old(self).inp().len() - old(self).cursor(), 1int,
    {
        let ghost s = old(self).inp();
        let ghost c: nat = old(self).cursor();
        proof {
            lemma_lex_step(s, c);
            lemma_prefix_from_minus(s, c);
        }
        self.next();
        let number = match self.parse_expression(PREC_PREFIX) {
            Option::Some(n) => n,
            Option::None => {
                return Option::None;
            },
        };
        Option::Some(
            Box::new(Expression::PrefixExpression { operator: Token::Minus, right: number }),
        )
    }

    /// A number leaf, taken from the token under consideration.
    fn parse_number(&mut self) -> (r: Option<Box<Expression>>)
        requires
            old(self).wf(),
        ensures
            *final(self) == *old(self),
            match opt_token_model(old(self).current) {
                Option::Some(TokenModel::Number(l)) => r matches Some(e) && e@
                    == ExprModel::Number(l),
                _ => r is None,
            },
    {
        match &self.current {
            Option::Some(Token::Number(lit)) => {
                let v = lit.clone();
                proof {
                    assert(v@ =~= lit@);
                }
                Option::Some(Box::new(Expression::Number(v)))
            },
            _ => Option::None,
        }
    }

    /// A parenthesized group: take the opening parenthesis, a whole
    /// expression at `PREC_LOWEST`, and the closing parenthesis; without
    /// the closing parenthesis the group, inner expression and all, yields
    /// nothing.
    fn parse_grouped_expression(&mut self) -> (r: Option<Box<Expression>>)
        requires
            old(self).wf(),
            opt_token_model(old(self).current) == Option::Some(TokenModel::LParen),
        ensures
            final(self).wf(),
            final(self).inp() == old(self).inp(),
            old(self).cursor() <= final(self).cursor(),
            r is None ==> prefix_from(old(self).inp(), old(self).cursor()) == Parsed::Reject,
            r matches Some(e) ==> prefix_from(old(self).inp(), old(self).cursor())
                == Parsed::Accept(e@, final(self).cursor()) && final(self).has_current(),
        decreases old(self).inp().len() - old(self).cursor(), 1int,
    {
        let ghost s = old(self).inp();
        let ghost c: nat = old(self).cursor();
        proof {
            lemma_lex_step(s, c);
            lemma_prefix_from_lparen(s, c);
        }
        self.next();
        let expression = self.parse_expression(PREC_LOWEST);
        proof {
            if expression is Some {
                lemma_lex_step(s, self.cursor());
            }
        }
        if self.is_peek(&Token::RParen) {
            self.next();
            expression
        } else {
            Option::None
        }
    }

    /// Fold `left` with the operator under consideration, if it is one;
    /// any other token hands `left` back untouched (the loop above never
    /// lets that happen).
    fn parse_infix(&mut self, left: Box<Expression>) -> (r: Option<Box<Expression>>)
        requires
            old(self).wf(),
        ensures
            final(self).wf(),
            final(self).inp() == old(self).inp(),
            old(self).cursor() <= final(self).cursor(),
            match opt_token_model(old(self).current) {
                Option::Some(op) => if is_infix_op(op) {
                    infix_post(old(self).inp(), old(self).cursor(), op, left@, r, *final(self))
                } else {
                    r == Option::Some(left) && *final(self) == *old(self)
                },
                Option::None => r is None && *final(self) == *old(self),
            },
        decreases old(self).inp().len() - old(self).cursor(), 1int,
    {
        let t = match self.current.as_ref() {
            Option::Some(t) => t,
            Option::None => {
                return Option::None;
            },
        };
        match t {
            Token::Plus | Token::Minus | Token::Asterisk | Token::Slash => self
                .parse_infix_expression(left),
            _ => Option::Some(left),
        }
    }

    /// The operator under consideration and a right operand at that
    /// operator's own strength, folded onto `left`.
    fn parse_infix_expression(&mut self, left: Box<Expression>) -> (r: Option<Box<Expression>>)
        requires
            old(self).wf(),
            opt_token_model(old(self).current) matches Some(op) && is_infix_op(op),
        ensures
            final(self).wf(),
            final(self).inp() == old(self).inp(),
            old(self).cursor() <= final(self).cursor(),
            infix_post(
                old(self).inp(),
                old(self).cursor(),
                opt_token_model(old(self).current).unwrap(),
                left@,
                r,
                *final(self),
            ),
        decreases old(self).inp().len() - old(self).cursor(), 0int,
    {
        let ghost s = old(self).inp();
        let ghost c: nat = old(self).cursor();
        proof {
            lemma_lex_step(s, c);
        }
        let operator = match self.current.as_ref() {
            Option::Some(Token::Plus) => Token::Plus,
            Option::Some(Token::Minus) => Token::Minus,
            Option::Some(Token::Asterisk) => Token::Asterisk,
            Option::Some(Token::Slash) => Token::Slash,
            _ => {
                proof {
                    assert(false);
                }
                return Option::None;
            },
        };
        let precedence: u8 = self.token_precedence(&operator);
        self.next();
        let right = match self.parse_expression(precedence) {
            Option::Some(x) => x,
            Option::None => {
                return Option::None;
            },
        };
        Option::Some(Box::new(Expression::InfixExpression { left, operator, right }))
    }

    /// Shift the lookahead into consideration and draw a fresh token from
    /// the lexer into the lookahead.
    fn next(&mut self)
        requires
            old(self).wf(),
        ensures
            final(self).wf(),
            final(self).inp() == old(self).inp(),
            final(self).cursor() == next_cursor(old(self).inp(), old(self).cursor()),
            old(self).cursor() <= final(self).cursor(),
            old(self).current is Some ==> old(self).cursor() < final(self).cursor(),
            opt_token_model(final(self).current) == peek_of(old(self).inp(), old(self).cursor()),
    {
        let ghost s = self.inp();
        let ghost c: nat = self.at@;
        proof {
            lemma_lex_step(s, c);
            lemma_lex_step(s, next_cursor(s, c));
            lemma_lex_step(s, next_cursor(s, next_cursor(s, c)));
        }
        let mut t = self.lexer.token();
        core::mem::swap(&mut self.current, &mut self.peek);
        core::mem::swap(&mut self.peek, &mut t);
        self.at = Ghost(next_cursor(s, c));
    }

    /// Whether the lookahead is a token of the same kind as `token`.
    fn is_peek(&self, token: &Token) -> (r: bool)
        ensures
            r == match opt_token_model(self.peek) {
                Option::Some(p) => kind_of(p) == kind_of(token@),
                Option::None => false,
            },
    {
        match &self.peek {
            Option::None => false,
            Option::Some(p) => token_kind(p) == token_kind(token),
        }
    }

    /// The binding strength of the lookahead; absence binds lowest.
    fn peek_precedence(&self) -> (r: u8)
        ensures
            r == opt_prec(opt_token_model(self.peek)),
    {
        match &self.peek {
            Option::None => PREC_LOWEST,
            Option::Some(t) => self.token_precedence(t),
        }
    }

    /// The binding strength of a token met in infix position.
    fn token_precedence(&self, token: &Token) -> (r: u8)
        ensures
            r == prec_of(token@),
    {
        match token {
            Token::Plus | Token::Minus => PREC_SUM,
            Token::Asterisk | Token::Slash => PREC_PRODUCT,
            _ => PREC_LOWEST,
        }
    }
}

/// The kind code of a token, ignoring any payload.
fn token_kind(t: &Token) -> (k: u8)
    ensures
        k == kind_of(t@),
{
    match t {
        Token::Number(_) => 0,
        Token::Plus => 1,
        Token::Minus => 2,
        Token::Asterisk => 3,
        Token::Slash => 4,
        Token::LParen => 5,
        Token::RParen => 6,
    }
}

} // verus!

use vstd::prelude::*;
use vstd::string::*;

use crate::token::opt_token_model;
use crate::token::Token;
use crate::token::TokenModel;

verus! {

// ---------------------------------------------------------------------------
// The model of lexing: what one step of the lexer reads, and the token
// sequence a whole input yields.
// ---------------------------------------------------------------------------

/// An ASCII decimal digit.
pub open spec fn is_digit_char(c: char) -> bool {
    48 <= c as u32 && c as u32 <= 57
}

/// A character that may stand inside a number literal: a digit or a dot.
pub open spec fn is_number_char(c: char) -> bool {
    is_digit_char(c) || c == '.'
}

/// A whitespace character: the Unicode `White_Space` set, the set that
/// `char::is_whitespace` is documented to test.
pub open spec fn is_space_char(c: char) -> bool {
    let u: u32 = c as u32;
    u == 0x20 || (0x09 <= u && u <= 0x0D) || u == 0x85 || u == 0xA0 || u == 0x1680 || (0x2000
        <= u && u <= 0x200A) || u == 0x2028 || u == 0x2029 || u == 0x202F || u == 0x205F || u
        == 0x3000
}

/// The first position at or after `i` that does not hold whitespace (or the
/// end of the input).
pub open spec fn skip_ws_from(s: Seq<char>, i: nat) -> nat
    decreases s.len() - i,
{
    if i < s.len() && is_space_char(s[i as int]) {
        skip_ws_from(s, i + 1)
    } else {
        i
    }
}

/// The first position at or after `i` that does not hold a number character
/// (or the end of the input): the end of a maximal digit-and-dot run.
pub open spec fn num_run_end(s: Seq<char>, i: nat) -> nat
    decreases s.len() - i,
{
    if i < s.len() && is_number_char(s[i as int]) {
        num_run_end(s, i + 1)
    } else {
        i
    }
}

/// How many dots a literal holds.
pub open spec fn dot_count(t: Seq<char>) -> nat
    decreases t.len(),
{
    if t.len() == 0 {
        0
    } else {
        dot_count(t.drop_last()) + if t.last() == '.' {
            1nat
        } else {
            0nat
        }
    }
}

/// How many digits a literal holds.
pub open spec fn digit_count(t: Seq<char>) -> nat
    decreases t.len(),
{
    if t.len() == 0 {
        0
    } else {
        digit_count(t.drop_last()) + if is_digit_char(t.last()) {
            1nat
        } else {
            0nat
        }
    }
}

/// Whether a run of digits and dots reads as one decimal number: at least
/// one digit and at most one dot. On such runs this is exactly when the
/// standard decimal parser accepts the text (its number grammar is
/// `digit+ (. digit*)? | . digit+`, and a run has no sign or exponent).
pub open spec fn valid_number(t: Seq<char>) -> bool {
    dot_count(t) <= 1 && digit_count(t) >= 1
}

/// The operator token a single character stands for, if any.
pub open spec fn op_token(c: char) -> Option<TokenModel> {
    if c == '+' {
        Option::Some(TokenModel::Plus)
    } else if c == '-' {
        Option::Some(TokenModel::Minus)
    } else if c == '*' {
        Option::Some(TokenModel::Asterisk)
    } else if c == '/' {
        Option::Some(TokenModel::Slash)
    } else if c == '(' {
        Option::Some(TokenModel::LParen)
    } else if c == ')' {
        Option::Some(TokenModel::RParen)
    } else {
        Option::None
    }
}

/// What the lexer reads at position `j` once whitespace has been skipped:
/// the token (absent at the end of the input, for an unrecognized character
/// and for a malformed number literal) and the position just past what was
/// consumed.
pub open spec fn lex_classify(s: Seq<char>, j: nat) -> (Option<TokenModel>, nat) {
    if j >= s.len() {
        (Option::None, j)
    } else if is_number_char(s[j as int]) {
        let e = num_run_end(s, j + 1);
        let lit = s.subrange(j as int, e as int);
        if valid_number(lit) {
            (Option::Some(TokenModel::Number(lit)), e)
        } else {
            (Option::None, e)
        }
    } else {
        (op_token(s[j as int]), j + 1)
    }
}

/// One whole step of the lexer from position `i`: skip whitespace, then
/// classify. Yields the token read, if any, and the new position.
pub open spec fn lex_step(s: Seq<char>, i: nat) -> (Option<TokenModel>, nat) {
    lex_classify(s, skip_ws_from(s, i))
}

/// The token sequence drawn from position `i` by calling the lexer until it
/// first reports absence.
pub open spec fn tokens_of_at(s: Seq<char>, i: nat) -> Seq<TokenModel>
    decreases s.len() - i,
        via tokens_of_at_decreases
{
    match lex_step(s, i) {
        (Option::None, _) => Seq::empty(),
        (Option::Some(t), n) => seq![t] + tokens_of_at(s, n),
    }
}

#[via_fn]
proof fn tokens_of_at_decreases(s: Seq<char>, i: nat) {
    lemma_lex_step(s, i);
}

/// The token sequence a fresh lexer draws from the whole input.
pub open spec fn tokens_of(s: Seq<char>) -> Seq<TokenModel> {
    tokens_of_at(s, 0)
}

// ---------------------------------------------------------------------------
// Facts about the model.
// ---------------------------------------------------------------------------

/// Where whitespace skipping lands: at or after the start, within the
/// input, on a non-space character, with only spaces passed over.
proof fn lemma_skip_ws_from(s: Seq<char>, i: nat)
    ensures
        i <= skip_ws_from(s, i),
        i <= s.len() ==> skip_ws_from(s, i) <= s.len(),
        skip_ws_from(s, i) < s.len() ==> !is_space_char(s[skip_ws_from(s, i) as int]),
        forall|k: int| i <= k < skip_ws_from(s, i) ==> is_space_char(s[k]),
    decreases s.len() - i,
{
    if i < s.len() && is_space_char(s[i as int]) {
        lemma_skip_ws_from(s, i + 1);
    }
}

/// Where a digit-and-dot run ends: at or after the start, within the input,
/// with only number characters inside the run and none right after it.
proof fn lemma_num_run_end(s: Seq<char>, i: nat)
    ensures
        i <= num_run_end(s, i),
        i <= s.len() ==> num_run_end(s, i) <= s.len(),
        num_run_end(s, i) < s.len() ==> !is_number_char(s[num_run_end(s, i) as int]),
        forall|k: int| i <= k < num_run_end(s, i) ==> is_number_char(s[k]),
    decreases s.len() - i,
{
    if i < s.len() && is_number_char(s[i as int]) {
        lemma_num_run_end(s, i + 1);
    }
}

/// One lexer step never moves backwards, stays within the input, and moves
/// strictly forwards whenever it yields a token.
pub proof fn lemma_lex_step(s: Seq<char>, i: nat)
    ensures
        i <= lex_step(s, i).1,
        i <= s.len() ==> lex_step(s, i).1 <= s.len(),
        lex_step(s, i).0 is Some ==> i < lex_step(s, i).1,
{
    lemma_skip_ws_from(s, i);
    let j = skip_ws_from(s, i);
    if j < s.len() && is_number_char(s[j as int]) {
        lemma_num_run_end(s, j + 1);
    }
}

// ---------------------------------------------------------------------------
// The lexer.
// ---------------------------------------------------------------------------

/// A cursor over a fixed character sequence that hands out one token per
/// call. The position only ever advances; once it is past the end, every
/// further call reports absence.
pub struct Lexer {
    input: Vec<char>,
    position: usize,
}

impl Lexer {
    /// The characters this lexer reads.
    pub closed spec fn inp(&self) -> Seq<char> {
        self.input@
    }

    /// The current position of the cursor.
    pub closed spec fn pos(&self) -> nat {
        self.position as nat
    }

    /// The cursor never stands past the end of the input.
    pub closed spec fn wf(&self) -> bool {
        self.position <= self.input.len()
    }

    /// What well-formedness guarantees callers outside this module: the
    /// cursor stands within the input.
    pub proof fn lemma_wf(&self)
        requires
            self.wf(),
        ensures
            self.pos() <= self.inp().len(),
    {
    }

    /// A fresh lexer over `input`, standing at the start.
    pub fn new(input: &str) -> (r: Lexer)
        ensures
            r.wf(),
            r.inp() == input@,
            r.pos() == 0,
    {
        let n: usize = input.unicode_len();
        let mut v: Vec<char> = Vec::new();
        let mut i: usize = 0;
        while i < n
            invariant
                i <= n,
                n == input@.len(),
                v@ == input@.subrange(0, i as int),
            decreases n - i,
        {
            v.push(input.get_char(i));
            i = i + 1;
            proof {
                assert(v@ =~= input@.subrange(0, i as int));
            }
        }
        proof {
            assert(v@ =~= input@);
        }
        Lexer { input: v, position: 0 }
    }

    /// Skip whitespace, then read and consume one token. Reports absence at
    /// the end of the input, for an unrecognized character and for a
    /// malformed number literal; in the latter two cases the offending
    /// characters are consumed all the same, so the next call goes on after
    /// them.
    pub fn token(&mut self) -> (r: Option<Token>)
        requires
            old(self).wf(),
        ensures
            final(self).wf(),
            final(self).inp() == old(self).inp(),
            final(self).pos() == lex_step(old(self).inp(), old(self).pos()).1,
            opt_token_model(r) == lex_step(old(self).inp(), old(self).pos()).0,
    {
        self.skip_whitespace();
        self.parse_token()
    }

    /// Classify and consume whatever stands at the current position, which
    /// is known to be past any whitespace.
    fn parse_token(&mut self) -> (r: Option<Token>)
        requires
            old(self).wf(),
        ensures
            final(self).wf(),
            final(self).inp() == old(self).inp(),
            final(self).pos() == lex_classify(old(self).inp(), old(self).pos()).1,
            opt_token_model(r) == lex_classify(old(self).inp(), old(self).pos()).0,
    {
        let c = match self.current() {
            Option::Some(c) => c,
            Option::None => {
                return Option::None;
            },
        };
        let token: Option<Token> = if self.is_number(&c) {
            self.number()
        } else {
            self.operator()
        };
        proof {
            lemma_num_run_end(self.inp(), old(self).pos() + 1);
        }
        self.next();
        token
    }

    /// Read a maximal run of digits and dots starting at the current
    /// position and leave the cursor on its last character. Yields a number
    /// token when the run reads as one decimal number, and nothing when it
    /// does not.
    fn number(&mut self) -> (r: Option<Token>)
        requires
            old(self).wf(),
            old(self).pos() < old(self).inp().len(),
            is_number_char(old(self).inp()[old(self).pos() as int]),
        ensures
            final(self).wf(),
            final(self).inp() == old(self).inp(),
            final(self).pos() + 1 == num_run_end(old(self).inp(), old(self).pos() + 1),
            ({
                let e = num_run_end(old(self).inp(), old(self).pos() + 1);
                let lit = old(self).inp().subrange(old(self).pos() as int, e as int);
                opt_token_model(r) == if valid_number(lit) {
                    Option::Some(TokenModel::Number(lit))
                } else {
                    Option::None::<TokenModel>
                }
            }),
    {
        let ghost s = self.inp();
        let ghost p0 = self.pos();
        let ghost e = num_run_end(s, p0 + 1);
        proof {
            lemma_num_run_end(s, p0 + 1);
        }
        let c = match self.current() {
            Option::Some(c) => c,
            Option::None => {
                return Option::None;
            },
        };
        if !self.is_number(&c) {
            return Option::None;
        }
        let mut lit: Vec<char> = Vec::new();
        lit.push(c);
        proof {
            assert(lit@ =~= s.subrange(p0 as int, p0 as int + 1));
        }
        while self.peek().is_some() && self.is_number(&self.peek().unwrap())
            invariant
                self.wf(),
                self.inp() == s,
                p0 <= self.pos(),
                self.pos() < s.len(),
                self.pos() + 1 <= e,
                e == num_run_end(s, p0 + 1),
                lit@ == s.subrange(p0 as int, self.pos() as int + 1),
                num_run_end(s, p0 + 1) == num_run_end(s, self.pos() + 1),
            decreases s.len() - self.pos(),
        {
            proof {
                lemma_num_run_end(s, p0 + 1);
            }
            self.next();
            let cc = match self.current() {
                Option::Some(cc) => cc,
                Option::None => {
                    proof {
                        assert(false);
                    }
                    return Option::None;
                },
            };
            lit.push(cc);
            proof {
                assert(lit@ =~= s.subrange(p0 as int, self.pos() as int + 1));
            }
        }
        proof {
            lemma_num_run_end(s, p0 + 1);
            assert(self.pos() + 1 == e);
        }
        if is_valid_number(&lit) {
            Option::Some(Token::Number(lit))
        } else {
            Option::None
        }
    }

    /// Match the current character against the operator set, consuming
    /// nothing; unrecognized characters yield nothing.
    fn operator(&mut self) -> (r: Option<Token>)
        requires
            old(self).wf(),
        ensures
            *final(self) == *old(self),
            opt_token_model(r) == if old(self).pos() < old(self).inp().len() {
                op_token(old(self).inp()[old(self).pos() as int])
            } else {
                Option::None::<TokenModel>
            },
    {
        let c = match self.current() {
            Option::Some(c) => c,
            Option::None => {
                return Option::None;
            },
        };
        match c {
            '+' => Option::Some(Token::Plus),
            '-' => Option::Some(Token::Minus),
            '*' => Option::Some(Token::Asterisk),
            '/' => Option::Some(Token::Slash),
            '(' => Option::Some(Token::LParen),
            ')' => Option::Some(Token::RParen),
            _ => Option::None,
        }
    }

    /// Advance the cursor past any whitespace.
    fn skip_whitespace(&mut self)
        requires
            old(self).wf(),
        ensures
            final(self).wf(),
            final(self).inp() == old(self).inp(),
            final(self).pos() == skip_ws_from(old(self).inp(), old(self).pos()),
    {
        while self.position < self.input.len() && is_space(self.input[self.position])
            invariant
                self.wf(),
                self.inp() == old(self).inp(),
                skip_ws_from(self.inp(), old(self).pos()) == skip_ws_from(
                    self.inp(),
                    self.pos(),
                ),
            decreases self.input.len() - self.position,
        {
            self.position = self.position + 1;
        }
    }

    /// Move the cursor one character forward.
    fn next(&mut self)
        requires
            old(self).wf(),
            old(self).pos() < old(self).inp().len(),
        ensures
            final(self).wf(),
            final(self).inp() == old(self).inp(),
            final(self).pos() == old(self).pos() + 1,
    {
        self.position = self.position + 1;
    }

    /// The character under the cursor, if the cursor is within the input.
    fn current(&self) -> (r: Option<char>)
        ensures
            r == if self.pos() < self.inp().len() {
                Option::Some(self.inp()[self.pos() as int])
            } else {
                Option::None::<char>
            },
    {
        if self.position < self.input.len() {
            Option::Some(self.input[self.position])
        } else {
            Option::None
        }
    }

    /// The character one past the cursor, if there is one.
    fn peek(&self) -> (r: Option<char>)
        requires
            self.wf(),
        ensures
            r == if self.pos() + 1 < self.inp().len() {
                Option::Some(self.inp()[self.pos() as int + 1])
            } else {
                Option::None::<char>
            },
    {
        if self.position < self.input.len() {
            let k: usize = self.position + 1;
            if k < self.input.len() {
                Option::Some(self.input[k])
            } else {
                Option::None
            }
        } else {
            Option::None
        }
    }

    /// Whether a character may stand inside a number literal.
    fn is_number(&self, c: &char) -> (r: bool)
        ensures
            r == is_number_char(*c),
    {
        let u: u32 = *c as u32;
        (48 <= u && u <= 57) || *c == '.'
    }
}

/// Whether a character is whitespace: the Unicode `White_Space` set, as
/// `char::is_whitespace` is documented to test it.
fn is_space(c: char) -> (r: bool)
    ensures
        r == is_space_char(c),
{
    let u: u32 = c as u32;
    u == 0x20 || (0x09 <= u && u <= 0x0D) || u == 0x85 || u == 0xA0 || u == 0x1680 || (0x2000 <= u
        && u <= 0x200A) || u == 0x2028 || u == 0x2029 || u == 0x202F || u == 0x205F || u == 0x3000
}

/// Whether a digit-and-dot run reads as one decimal number: at least one
/// digit and at most one dot.
fn is_valid_number(v: &Vec<char>) -> (r: bool)
    ensures
        r == valid_number(v@),
{
    let mut dots: usize = 0;
    let mut digits: usize = 0;
    let mut i: usize = 0;
    while i < v.len()
        invariant
            i <= v.len(),
            dots == dot_count(v@.subrange(0, i as int)),
            digits == digit_count(v@.subrange(0, i as int)),
            dots <= i,
            digits <= i,
        decreases v.len() - i,
    {
        let c = v[i];
        let u: u32 = c as u32;
        if c == '.' {
            dots = dots + 1;
        } else if 48 <= u && u <= 57 {
            digits = digits + 1;
        }
        i = i + 1;
        proof {
            assert(v@.subrange(0, i as int).drop_last() =~= v@.subrange(0, i - 1));
            assert(v@.subrange(0, i as int).last() == v@[i - 1]);
        }
    }
    proof {
        assert(v@.subrange(0, v@.len() as int) =~= v@);
    }
    dots <= 1 && digits >= 1
}

/// The whole token sequence of an input, drawn by calling a fresh lexer
/// until it first reports absence. Because the result is exactly
/// `tokens_of(input)`, a function of the text alone, re-lexing the same
/// input always yields the same sequence.
pub fn tokens(input: &str) -> (r: Vec<Token>)
    ensures
        r@.map_values(|t: Token| t@) == tokens_of(input@),
{
    let ghost s = input@;
    let mut lexer = Lexer::new(input);
    let mut out: Vec<Token> = Vec::new();
    let mut done = false;
    while !done
        invariant
            lexer.wf(),
            lexer.inp() == s,
            tokens_of(s) == out@.map_values(|t: Token| t@) + if done {
                Seq::<TokenModel>::empty()
            } else {
                tokens_of_at(s, lexer.pos())
            },
        decreases 2 * (s.len() - lexer.pos()) + if done {
            0int
        } else {
            1int
        },
    {
        let ghost p: nat = lexer.pos();
        proof {
            lemma_lex_step(s, p);
        }
        match lexer.token() {
            Option::Some(tok) => {
                out.push(tok);
                proof {
                    assert(out@.map_values(|t: Token| t@) =~= out@.drop_last().map_values(
                        |t: Token| t@,
                    ).push(out@.last()@));
                }
            },
            Option::None => {
                done = true;
            },
        }
    }
    proof {
        assert(tokens_of(s) =~= out@.map_values(|t: Token| t@));
    }
    out
}

// ---------------------------------------------------------------------------
// Laws of lexing.
// ---------------------------------------------------------------------------

/// Helper: a run made only of number characters ends at the end of the text.
proof fn lemma_num_run_all(t: Seq<char>, k: nat)
    requires
        k <= t.len(),
        forall|j: int| 0 <= j < t.len() ==> is_number_char(t[j]),
    ensures
        num_run_end(t, k) == t.len(),
    decreases t.len() - k,
{
    if k < t.len() {
        lemma_num_run_all(t, k + 1);
    }
}

/// Lexing a text that is one valid digit-and-dot literal yields exactly one
/// token: a number carrying that text.
pub proof fn lemma_lex_number_literal(t: Seq<char>)
    ensures
        t.len() > 0 && (forall|k: int| 0 <= k < t.len() ==> is_number_char(t[k])) && valid_number(
            t,
        ) ==> tokens_of(t) == seq![TokenModel::Number(t)],
{
    if t.len() > 0 && (forall|k: int| 0 <= k < t.len() ==> is_number_char(t[k])) && valid_number(
        t,
    ) {
        assert(!is_space_char(t[0]));
        assert(skip_ws_from(t, 0) == 0);
        lemma_num_run_all(t, 1);
        assert(t.subrange(0, t.len() as int) =~= t);
        assert(lex_step(t, 0) == (Option::Some(TokenModel::Number(t)), t.len() as nat));
        assert(skip_ws_from(t, t.len() as nat) == t.len());
        assert(tokens_of_at(t, t.len() as nat) =~= Seq::<TokenModel>::empty());
        assert(tokens_of(t) =~= seq![TokenModel::Number(t)]);
    }
}

/// Lexing a text that is one operator character yields exactly the matching
/// operator token.
pub proof fn lemma_lex_operator_char(c: char)
    ensures
        op_token(c) is Some ==> tokens_of(seq![c]) == seq![op_token(c).unwrap()],
{
    let s = seq![c];
    if op_token(c) is Some {
        assert(s[0] == c);
        assert(!is_space_char(c));
        assert(!is_number_char(c));
        assert(skip_ws_from(s, 0) == 0);
        assert(lex_step(s, 0) == (op_token(c), 1nat));
        assert(skip_ws_from(s, 1) == 1);
        assert(tokens_of_at(s, 1) =~= Seq::<TokenModel>::empty());
        assert(tokens_of(s) =~= seq![op_token(c).unwrap()]);
    }
}

} // verus!

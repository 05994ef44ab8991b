//! Recursive-descent, precedence-climbing parser: token stream to Program.
//!
//! The parser consumes an ordered token source with one-token lookahead and
//! produces a `Program`, or fails with `UnexpectedToken` (carrying the
//! offending token) or `UnexpectedEndOfInput`.  The first failure aborts
//! parsing of the whole program.
//!
//! After each statement one token is consumed as the statement terminator
//! without being checked (the semicolon is advisory, not enforced).  A
//! `return` at the very end of the input produces a `Return` with no value.

use vstd::prelude::*;

use crate::ast::{
    exprs_view, funcs_view, lemma_exprs_view_push, stmts_view, Expr, FuncDecl, Op, Program,
    SpecExpr, SpecFuncDecl, SpecStmt, Stmt,
};
use crate::scanner::{spec_tokens, NumberLit, SpecToken, Token};

verus! {

#[derive(Debug, PartialEq)]
pub enum ParsingError {
    UnexpectedToken(Token),
    UnexpectedEndOfInput,
}

pub ghost enum SpecParseError {
    UnexpectedToken(SpecToken),
    UnexpectedEndOfInput,
}

impl View for ParsingError {
    type V = SpecParseError;

    open spec fn view(&self) -> SpecParseError {
        match self {
            ParsingError::UnexpectedToken(t) => SpecParseError::UnexpectedToken(t@),
            ParsingError::UnexpectedEndOfInput => SpecParseError::UnexpectedEndOfInput,
        }
    }
}

// ---------------------------------------------------------------------------
// The grammar, as mathematical functions of the token sequence.
// ---------------------------------------------------------------------------

/// Left and right binding power of an infix operator token.
pub open spec fn spec_infix_bp(t: SpecToken) -> Option<(u8, u8)> {
    match t {
        SpecToken::Plus => Some((1u8, 2u8)),
        SpecToken::Minus => Some((1u8, 2u8)),
        SpecToken::Star => Some((3u8, 4u8)),
        SpecToken::Slash => Some((3u8, 4u8)),
        _ => None,
    }
}

/// Right binding power of a prefix operator token.
pub open spec fn spec_prefix_bp(t: SpecToken) -> Option<u8> {
    match t {
        SpecToken::Minus => Some(5u8),
        _ => None,
    }
}

/// The operator of an infix operator token.
pub open spec fn spec_op_of(t: SpecToken) -> Op {
    match t {
        SpecToken::Plus => Op::Add,
        SpecToken::Minus => Op::Sub,
        SpecToken::Star => Op::Mul,
        _ => Op::Div,
    }
}

/// One expression at `pos`, with binding powers below `min_bp` left to the
/// caller; on success also the position after the expression.
pub open spec fn spec_parse_expr(toks: Seq<SpecToken>, pos: int, min_bp: u8) -> Result<
    (SpecExpr, int),
    SpecParseError,
>
    decreases toks.len() - pos, 1int
        when 0 <= pos <= toks.len()
{
    if pos >= toks.len() {
        Err(SpecParseError::UnexpectedEndOfInput)
    } else {
        match toks[pos] {
            SpecToken::Number(n) => spec_parse_infix(
                toks,
                pos + 1,
                SpecExpr::Constant(n),
                min_bp,
            ),
            SpecToken::Identifier(name) => {
                if pos + 1 < toks.len() && toks[pos + 1] is LeftParen {
                    if pos + 2 >= toks.len() {
                        Err(SpecParseError::UnexpectedEndOfInput)
                    } else if toks[pos + 2] is RightParen {
                        spec_parse_infix(toks, pos + 3, SpecExpr::Call(name, Seq::empty()), min_bp)
                    } else {
                        match spec_parse_args(toks, pos + 2) {
                            Ok((args, p)) => if pos + 2 < p <= toks.len() {
                                spec_parse_infix(toks, p, SpecExpr::Call(name, args), min_bp)
                            } else {
                                Err(SpecParseError::UnexpectedEndOfInput)
                            },
                            Err(e) => Err(e),
                        }
                    }
                } else {
                    spec_parse_infix(toks, pos + 1, SpecExpr::Symbol(name), min_bp)
                }
            },
            SpecToken::LeftParen => {
                match spec_parse_expr(toks, pos + 1, 0u8) {
                    Ok((e, p)) => if pos + 1 < p <= toks.len() {
                        if p >= toks.len() {
                            Err(SpecParseError::UnexpectedEndOfInput)
                        } else if toks[p] is RightParen {
                            spec_parse_infix(toks, p + 1, e, min_bp)
                        } else {
                            Err(SpecParseError::UnexpectedToken(toks[p]))
                        }
                    } else {
                        Err(SpecParseError::UnexpectedEndOfInput)
                    },
                    Err(e) => Err(e),
                }
            },
            SpecToken::Minus => {
                match spec_parse_expr(toks, pos + 1, 5u8) {
                    Ok((rhs, p)) => if pos + 1 < p <= toks.len() {
                        spec_parse_infix(
                            toks,
                            p,
                            SpecExpr::Unary(Op::Sub, Box::new(rhs)),
                            min_bp,
                        )
                    } else {
                        Err(SpecParseError::UnexpectedEndOfInput)
                    },
                    Err(e) => Err(e),
                }
            },
            _ => Err(SpecParseError::UnexpectedToken(toks[pos])),
        }
    }
}

/// The infix loop: folds operators of sufficient binding power into `lhs`.
pub open spec fn spec_parse_infix(
    toks: Seq<SpecToken>,
    pos: int,
    lhs: SpecExpr,
    min_bp: u8,
) -> Result<(SpecExpr, int), SpecParseError>
    decreases toks.len() - pos, 0int
        when 0 <= pos <= toks.len()
{
    if pos >= toks.len() {
        Ok((lhs, pos))
    } else {
        match spec_infix_bp(toks[pos]) {
            None => Ok((lhs, pos)),
            Some((l_bp, r_bp)) => if l_bp < min_bp {
                Ok((lhs, pos))
            } else {
                match spec_parse_expr(toks, pos + 1, r_bp) {
                    Ok((rhs, p)) => if pos + 1 < p <= toks.len() {
                        spec_parse_infix(
                            toks,
                            p,
                            SpecExpr::Binary(Box::new(lhs), spec_op_of(toks[pos]), Box::new(rhs)),
                            min_bp,
                        )
                    } else {
                        Err(SpecParseError::UnexpectedEndOfInput)
                    },
                    Err(e) => Err(e),
                }
            },
        }
    }
}

/// A non-empty, comma-separated argument list ending at a closing paren;
/// on success also the position after the closing paren.
pub open spec fn spec_parse_args(toks: Seq<SpecToken>, pos: int) -> Result<
    (Seq<SpecExpr>, int),
    SpecParseError,
>
    decreases toks.len() - pos, 2int
        when 0 <= pos <= toks.len()
{
    match spec_parse_expr(toks, pos, 0u8) {
        Err(e) => Err(e),
        Ok((e, p)) => if pos < p <= toks.len() {
            if p >= toks.len() {
                Err(SpecParseError::UnexpectedEndOfInput)
            } else if toks[p] is RightParen {
                Ok((seq![e], p + 1))
            } else if toks[p] is Comma {
                match spec_parse_args(toks, p + 1) {
                    Ok((rest, p2)) => Ok((seq![e] + rest, p2)),
                    Err(e2) => Err(e2),
                }
            } else {
                Err(SpecParseError::UnexpectedToken(toks[p]))
            }
        } else {
            Err(SpecParseError::UnexpectedEndOfInput)
        },
    }
}

/// After one parsed statement ending at `p`: consume the advisory statement
/// terminator (one token, unchecked) and parse the remaining statements.
pub open spec fn spec_stmts_cont(toks: Seq<SpecToken>, start: int, stmt: SpecStmt, p: int) -> Result<
    (Seq<SpecStmt>, int),
    SpecParseError,
>
    decreases toks.len() - start, 3int
        when 0 <= start < p <= toks.len()
{
    let p2 = if p < toks.len() {
        p + 1
    } else {
        p
    };
    match spec_parse_stmts(toks, p2) {
        Ok((rest, p3)) => Ok((seq![stmt] + rest, p3)),
        Err(e) => Err(e),
    }
}

/// A statement list up to a closing brace or the end of the input; on
/// success also the position after the list.
pub open spec fn spec_parse_stmts(toks: Seq<SpecToken>, pos: int) -> Result<
    (Seq<SpecStmt>, int),
    SpecParseError,
>
    decreases toks.len() - pos, 4int
        when 0 <= pos <= toks.len()
{
    if pos >= toks.len() {
        Ok((Seq::empty(), pos))
    } else {
        match toks[pos] {
            SpecToken::RightBrace => Ok((Seq::empty(), pos + 1)),
            SpecToken::Return => {
                if pos + 1 >= toks.len() {
                    spec_stmts_cont(toks, pos, SpecStmt::Return(None), pos + 1)
                } else {
                    match spec_parse_expr(toks, pos + 1, 0u8) {
                        Ok((e, p)) => if pos + 1 < p <= toks.len() {
                            spec_stmts_cont(toks, pos, SpecStmt::Return(Some(e)), p)
                        } else {
                            Err(SpecParseError::UnexpectedEndOfInput)
                        },
                        Err(e) => Err(e),
                    }
                }
            },
            SpecToken::Let => {
                if pos + 1 >= toks.len() {
                    Err(SpecParseError::UnexpectedEndOfInput)
                } else {
                    match toks[pos + 1] {
                        SpecToken::Identifier(name) => {
                            if pos + 2 >= toks.len() {
                                Err(SpecParseError::UnexpectedEndOfInput)
                            } else if !(toks[pos + 2] is Equals) {
                                Err(SpecParseError::UnexpectedToken(toks[pos + 2]))
                            } else {
                                match spec_parse_expr(toks, pos + 3, 0u8) {
                                    Ok((e, p)) => if pos + 3 < p <= toks.len() {
                                        spec_stmts_cont(
                                            toks,
                                            pos,
                                            SpecStmt::Assignment(name, e),
                                            p,
                                        )
                                    } else {
                                        Err(SpecParseError::UnexpectedEndOfInput)
                                    },
                                    Err(e) => Err(e),
                                }
                            }
                        },
                        _ => Err(SpecParseError::UnexpectedToken(toks[pos + 1])),
                    }
                }
            },
            _ => Err(SpecParseError::UnexpectedToken(toks[pos])),
        }
    }
}

/// The program: a sequence of declarations, each a discarded leading token,
/// a name, an empty parameter list and a braced statement list.
pub open spec fn spec_parse_program(toks: Seq<SpecToken>, pos: int) -> Result<
    Seq<SpecFuncDecl>,
    SpecParseError,
>
    decreases toks.len() - pos, 5int
        when 0 <= pos <= toks.len()
{
    if pos >= toks.len() {
        Ok(Seq::empty())
    } else if pos + 1 >= toks.len() {
        Err(SpecParseError::UnexpectedEndOfInput)
    } else {
        match toks[pos + 1] {
            SpecToken::Identifier(name) => {
                if pos + 2 >= toks.len() {
                    Err(SpecParseError::UnexpectedEndOfInput)
                } else if !(toks[pos + 2] is LeftParen) {
                    Err(SpecParseError::UnexpectedToken(toks[pos + 2]))
                } else if pos + 3 >= toks.len() {
                    Err(SpecParseError::UnexpectedEndOfInput)
                } else if !(toks[pos + 3] is RightParen) {
                    Err(SpecParseError::UnexpectedToken(toks[pos + 3]))
                } else if pos + 4 >= toks.len() {
                    Err(SpecParseError::UnexpectedEndOfInput)
                } else if !(toks[pos + 4] is LeftBrace) {
                    Err(SpecParseError::UnexpectedToken(toks[pos + 4]))
                } else {
                    match spec_parse_stmts(toks, pos + 5) {
                        Ok((body, p)) => if pos + 5 <= p <= toks.len() {
                            match spec_parse_program(toks, p) {
                                Ok(fs) => Ok(seq![SpecFuncDecl { name, body }] + fs),
                                Err(e) => Err(e),
                            }
                        } else {
                            Err(SpecParseError::UnexpectedEndOfInput)
                        },
                        Err(e) => Err(e),
                    }
                }
            },
            _ => Err(SpecParseError::UnexpectedToken(toks[pos + 1])),
        }
    }
}

// ---------------------------------------------------------------------------
// Position bounds of the grammar functions.
// ---------------------------------------------------------------------------

pub proof fn lemma_expr_bounds(toks: Seq<SpecToken>, pos: int, min_bp: u8)
    requires
        0 <= pos <= toks.len(),
    ensures
        spec_parse_expr(toks, pos, min_bp) matches Ok((e, p)) ==> pos < p <= toks.len(),
    decreases toks.len() - pos, 1int,
{
    if pos < toks.len() {
        match toks[pos] {
            SpecToken::Number(n) => {
                lemma_infix_bounds(toks, pos + 1, SpecExpr::Constant(n), min_bp);
            },
            SpecToken::Identifier(name) => {
                if pos + 1 < toks.len() && toks[pos + 1] is LeftParen {
                    if pos + 2 < toks.len() {
                        if toks[pos + 2] is RightParen {
                            lemma_infix_bounds(
                                toks,
                                pos + 3,
                                SpecExpr::Call(name, Seq::empty()),
                                min_bp,
                            );
                        } else {
                            lemma_args_bounds(toks, pos + 2);
                            match spec_parse_args(toks, pos + 2) {
                                Ok((args, p)) => {
                                    lemma_infix_bounds(toks, p, SpecExpr::Call(name, args), min_bp);
                                },
                                _ => {},
                            }
                        }
                    }
                } else {
                    lemma_infix_bounds(toks, pos + 1, SpecExpr::Symbol(name), min_bp);
                }
            },
            SpecToken::LeftParen => {
                lemma_expr_bounds(toks, pos + 1, 0u8);
                match spec_parse_expr(toks, pos + 1, 0u8) {
                    Ok((e, p)) => {
                        if pos + 1 < p < toks.len() && toks[p] is RightParen {
                            lemma_infix_bounds(toks, p + 1, e, min_bp);
                        }
                    },
                    _ => {},
                }
            },
            SpecToken::Minus => {
                lemma_expr_bounds(toks, pos + 1, 5u8);
                match spec_parse_expr(toks, pos + 1, 5u8) {
                    Ok((rhs, p)) => {
                        if pos + 1 < p <= toks.len() {
                            lemma_infix_bounds(
                                toks,
                                p,
                                SpecExpr::Unary(Op::Sub, Box::new(rhs)),
                                min_bp,
                            );
                        }
                    },
                    _ => {},
                }
            },
            _ => {},
        }
    }
}

pub proof fn lemma_infix_bounds(toks: Seq<SpecToken>, pos: int, lhs: SpecExpr, min_bp: u8)
    requires
        0 <= pos <= toks.len(),
    ensures
        spec_parse_infix(toks, pos, lhs, min_bp) matches Ok((e, p)) ==> pos <= p <= toks.len(),
    decreases toks.len() - pos, 0int,
{
    if pos < toks.len() {
        match spec_infix_bp(toks[pos]) {
            None => {},
            Some((l_bp, r_bp)) => {
                if l_bp >= min_bp {
                    lemma_expr_bounds(toks, pos + 1, r_bp);
                    match spec_parse_expr(toks, pos + 1, r_bp) {
                        Ok((rhs, p)) => {
                            if pos + 1 < p <= toks.len() {
                                lemma_infix_bounds(
                                    toks,
                                    p,
                                    SpecExpr::Binary(
                                        Box::new(lhs),
                                        spec_op_of(toks[pos]),
                                        Box::new(rhs),
                                    ),
                                    min_bp,
                                );
                            }
                        },
                        _ => {},
                    }
                }
            },
        }
    }
}

pub proof fn lemma_args_bounds(toks: Seq<SpecToken>, pos: int)
    requires
        0 <= pos <= toks.len(),
    ensures
        spec_parse_args(toks, pos) matches Ok((args, p)) ==> pos < p <= toks.len(),
    decreases toks.len() - pos, 2int,
{
    lemma_expr_bounds(toks, pos, 0u8);
    match spec_parse_expr(toks, pos, 0u8) {
        Ok((e, p)) => {
            if pos < p < toks.len() && toks[p] is Comma {
                lemma_args_bounds(toks, p + 1);
            }
        },
        _ => {},
    }
}

pub proof fn lemma_stmts_cont_bounds(toks: Seq<SpecToken>, start: int, stmt: SpecStmt, p: int)
    requires
        0 <= start < p <= toks.len(),
    ensures
        spec_stmts_cont(toks, start, stmt, p) matches Ok((ss, p3)) ==> start < p3 <= toks.len(),
    decreases toks.len() - start, 3int,
{
    let p2 = if p < toks.len() {
        p + 1
    } else {
        p
    };
    lemma_stmts_bounds(toks, p2);
}

pub proof fn lemma_stmts_bounds(toks: Seq<SpecToken>, pos: int)
    requires
        0 <= pos <= toks.len(),
    ensures
        spec_parse_stmts(toks, pos) matches Ok((ss, p)) ==> pos <= p <= toks.len(),
    decreases toks.len() - pos, 4int,
{
    if pos < toks.len() {
        match toks[pos] {
            SpecToken::Return => {
                if pos + 1 >= toks.len() {
                    lemma_stmts_cont_bounds(toks, pos, SpecStmt::Return(None), pos + 1);
                } else {
                    lemma_expr_bounds(toks, pos + 1, 0u8);
                    match spec_parse_expr(toks, pos + 1, 0u8) {
                        Ok((e, p)) => {
                            if pos + 1 < p <= toks.len() {
                                lemma_stmts_cont_bounds(toks, pos, SpecStmt::Return(Some(e)), p);
                            }
                        },
                        _ => {},
                    }
                }
            },
            SpecToken::Let => {
                if pos + 1 < toks.len() {
                    match toks[pos + 1] {
                        SpecToken::Identifier(name) => {
                            if pos + 2 < toks.len() && toks[pos + 2] is Equals {
                                lemma_expr_bounds(toks, pos + 3, 0u8);
                                match spec_parse_expr(toks, pos + 3, 0u8) {
                                    Ok((e, p)) => {
                                        if pos + 3 < p <= toks.len() {
                                            lemma_stmts_cont_bounds(
                                                toks,
                                                pos,
                                                SpecStmt::Assignment(name, e),
                                                p,
                                            );
                                        }
                                    },
                                    _ => {},
                                }
                            }
                        },
                        _ => {},
                    }
                }
            },
            _ => {},
        }
    }
}

// ---------------------------------------------------------------------------
// The token source.
// ---------------------------------------------------------------------------

fn vec_char_eq(a: &Vec<char>, b: &Vec<char>) -> (r: bool)
    ensures
        r == (a@ == b@),
{
    if a.len() != b.len() {
        return false;
    }
    let mut i: usize = 0;
    while i < a.len()
        invariant
            a@.len() == b@.len(),
            0 <= i <= a@.len(),
            forall|j: int| 0 <= j < i ==> a@[j] == b@[j],
        decreases a@.len() - i,
    {
        if a[i] != b[i] {
            return false;
        }
        i = i + 1;
    }
    proof {
        assert(a@ =~= b@);
    }
    true
}

/// A copy of a token with the same model.
fn dup_token(t: &Token) -> (r: Token)
    ensures
        r@ == t@,
{
    match t {
        Token::LeftParen => Token::LeftParen,
        Token::RightParen => Token::RightParen,
        Token::LeftBrace => Token::LeftBrace,
        Token::RightBrace => Token::RightBrace,
        Token::Equals => Token::Equals,
        Token::Comma => Token::Comma,
        Token::Semicolon => Token::Semicolon,
        Token::Plus => Token::Plus,
        Token::Minus => Token::Minus,
        Token::Star => Token::Star,
        Token::Slash => Token::Slash,
        Token::Fun => Token::Fun,
        Token::Let => Token::Let,
        Token::Return => Token::Return,
        Token::Identifier(s) => Token::Identifier(s.clone()),
        Token::Number(n) => {
            let frac = n.frac.clone();
            proof {
                assert forall|i: int| 0 <= i < n.frac@.len() implies frac@[i] == n.frac@[i] by {
                    assert(cloned::<char>(n.frac@[i], frac@[i]));
                }
                assert(frac@ =~= n.frac@);
            }
            Token::Number(NumberLit { whole: n.whole, frac })
        },
    }
}

/// Structural equality of two tokens.
fn token_eq(a: &Token, b: &Token) -> (r: bool)
    ensures
        r == (a@ == b@),
{
    match a {
        Token::LeftParen => matches!(b, Token::LeftParen),
        Token::RightParen => matches!(b, Token::RightParen),
        Token::LeftBrace => matches!(b, Token::LeftBrace),
        Token::RightBrace => matches!(b, Token::RightBrace),
        Token::Equals => matches!(b, Token::Equals),
        Token::Comma => matches!(b, Token::Comma),
        Token::Semicolon => matches!(b, Token::Semicolon),
        Token::Plus => matches!(b, Token::Plus),
        Token::Minus => matches!(b, Token::Minus),
        Token::Star => matches!(b, Token::Star),
        Token::Slash => matches!(b, Token::Slash),
        Token::Fun => matches!(b, Token::Fun),
        Token::Let => matches!(b, Token::Let),
        Token::Return => matches!(b, Token::Return),
        Token::Identifier(x) => match b {
            Token::Identifier(y) => *x == *y,
            _ => false,
        },
        Token::Number(n) => match b {
            Token::Number(m) => n.whole == m.whole && vec_char_eq(&n.frac, &m.frac),
            _ => false,
        },
    }
}

/// An ordered, peekable token source: the parser's one-token-lookahead
/// cursor over the scanned token list.
pub struct TokenSource {
    tokens: Vec<Token>,
    pos: usize,
}

pub ghost struct SpecTokenSource {
    pub toks: Seq<SpecToken>,
    pub pos: int,
}

impl View for TokenSource {
    type V = SpecTokenSource;

    closed spec fn view(&self) -> SpecTokenSource {
        SpecTokenSource { toks: spec_tokens(self.tokens@), pos: self.pos as int }
    }
}

pub open spec fn ts_wf(s: SpecTokenSource) -> bool {
    0 <= s.pos <= s.toks.len()
}

impl TokenSource {
    pub fn new(tokens: Vec<Token>) -> (r: TokenSource)
        ensures
            ts_wf(r@),
            r@.toks == spec_tokens(tokens@),
            r@.pos == 0,
    {
        TokenSource { tokens, pos: 0 }
    }

    /// Consumes and returns the next token, if any.
    pub fn next(&mut self) -> (r: Option<Token>)
        requires
            ts_wf(old(self)@),
        ensures
            ts_wf(final(self)@),
            final(self)@.toks == old(self)@.toks,
            old(self)@.pos < old(self)@.toks.len() ==> (r matches Some(t) && t@
                == old(self)@.toks[old(self)@.pos]) && final(self)@.pos == old(self)@.pos + 1,
            old(self)@.pos >= old(self)@.toks.len() ==> r is None && final(self)@ == old(self)@,
    {
        if self.pos < self.tokens.len() {
            let t = dup_token(&self.tokens[self.pos]);
            self.pos = self.pos + 1;
            proof {
                assert(t@ == old(self)@.toks[old(self)@.pos]);
            }
            Some(t)
        } else {
            None
        }
    }

    /// The next token, if any, without consuming it.
    pub fn peek(&self) -> (r: Option<&Token>)
        ensures
            self@.pos < self@.toks.len() ==> (r matches Some(t) && t@ == self@.toks[self@.pos]),
            self@.pos >= self@.toks.len() ==> r is None,
    {
        if self.pos < self.tokens.len() {
            Some(&self.tokens[self.pos])
        } else {
            None
        }
    }

    /// The next token, or `UnexpectedEndOfInput` if none remains.
    pub fn expect_next(&mut self) -> (r: Result<Token, ParsingError>)
        requires
            ts_wf(old(self)@),
        ensures
            ts_wf(final(self)@),
            final(self)@.toks == old(self)@.toks,
            old(self)@.pos < old(self)@.toks.len() ==> (r matches Ok(t) && t@
                == old(self)@.toks[old(self)@.pos]) && final(self)@.pos == old(self)@.pos + 1,
            old(self)@.pos >= old(self)@.toks.len() ==> r == Err::<Token, ParsingError>(
                ParsingError::UnexpectedEndOfInput,
            ) && final(self)@ == old(self)@,
    {
        match self.next() {
            None => Err(ParsingError::UnexpectedEndOfInput),
            Some(t) => Ok(t),
        }
    }

    /// Consumes the next token and demands that it equal `token`.
    pub fn expect_token(&mut self, token: Token) -> (r: Result<Token, ParsingError>)
        requires
            ts_wf(old(self)@),
        ensures
            ts_wf(final(self)@),
            final(self)@.toks == old(self)@.toks,
            old(self)@.pos >= old(self)@.toks.len() ==> r == Err::<Token, ParsingError>(
                ParsingError::UnexpectedEndOfInput,
            ) && final(self)@ == old(self)@,
            old(self)@.pos < old(self)@.toks.len() ==> final(self)@.pos == old(self)@.pos + 1 && (
            if old(self)@.toks[old(self)@.pos] == token@ {
                r matches Ok(t) && t@ == old(self)@.toks[old(self)@.pos]
            } else {
                r matches Err(e) && e@ == SpecParseError::UnexpectedToken(
                    old(self)@.toks[old(self)@.pos],
                )
            }),
    {
        match self.expect_next() {
            Err(e) => Err(e),
            Ok(t) => if token_eq(&t, &token) {
                Ok(t)
            } else {
                Err(ParsingError::UnexpectedToken(t))
            },
        }
    }

    /// Consumes the next token and demands that it be an identifier, whose
    /// name it returns.
    pub fn expect_identifier(&mut self) -> (r: Result<String, ParsingError>)
        requires
            ts_wf(old(self)@),
        ensures
            ts_wf(final(self)@),
            final(self)@.toks == old(self)@.toks,
            old(self)@.pos >= old(self)@.toks.len() ==> r == Err::<String, ParsingError>(
                ParsingError::UnexpectedEndOfInput,
            ) && final(self)@ == old(self)@,
            old(self)@.pos < old(self)@.toks.len() ==> final(self)@.pos == old(self)@.pos + 1 && (
            match old(self)@.toks[old(self)@.pos] {
                SpecToken::Identifier(name) => r matches Ok(s) && s@ == name,
                _ => r matches Err(e) && e@ == SpecParseError::UnexpectedToken(
                    old(self)@.toks[old(self)@.pos],
                ),
            }),
    {
        match self.expect_next() {
            Err(e) => Err(e),
            Ok(t) => match t {
                Token::Identifier(s) => Ok(s),
                _ => Err(ParsingError::UnexpectedToken(t)),
            },
        }
    }
}

// ---------------------------------------------------------------------------
// The executable parser.
// ---------------------------------------------------------------------------

/// Left and right binding power of an infix operator token.
pub fn infix_binding_power(t: &Token) -> (r: Option<(u8, u8)>)
    ensures
        r == spec_infix_bp(t@),
{
    match t {
        Token::Plus => Some((1, 2)),
        Token::Minus => Some((1, 2)),
        Token::Star => Some((3, 4)),
        Token::Slash => Some((3, 4)),
        _ => None,
    }
}

/// Right binding power of a prefix operator token.
pub fn prefix_binding_power(t: &Token) -> (r: Option<((), u8)>)
    ensures
        match r {
            Some(p) => spec_prefix_bp(t@) == Some(p.1),
            None => spec_prefix_bp(t@) is None,
        },
{
    match t {
        Token::Minus => Some(((), 5)),
        _ => None,
    }
}

/// The operator and binding powers of an infix operator token, in one step.
fn infix_op(t: &Token) -> (r: Option<(Op, u8, u8)>)
    ensures
        match r {
            Some(t3) => spec_infix_bp(t@) == Some((t3.1, t3.2)) && t3.0 == spec_op_of(t@),
            None => spec_infix_bp(t@) is None,
        },
{
    match t {
        Token::Plus => Some((Op::Add, 1, 2)),
        Token::Minus => Some((Op::Sub, 1, 2)),
        Token::Star => Some((Op::Mul, 3, 4)),
        Token::Slash => Some((Op::Div, 3, 4)),
        _ => None,
    }
}

/// A non-empty, comma-separated argument list, ended by a closing paren.
fn parse_call_args(lexer: &mut TokenSource) -> (r: Result<Vec<Box<Expr>>, ParsingError>)
    requires
        ts_wf(old(lexer)@),
    ensures
        ts_wf(final(lexer)@),
        final(lexer)@.toks == old(lexer)@.toks,
        match spec_parse_args(old(lexer)@.toks, old(lexer)@.pos) {
            Ok((argsv, p)) => (r matches Ok(v) && exprs_view(v@) == argsv) && final(lexer)@.pos
                == p,
            Err(pe) => r matches Err(err) && err@ == pe,
        },
    decreases old(lexer)@.toks.len() - old(lexer)@.pos, 2int,
{
    let ghost toks = lexer@.toks;
    let ghost a0 = lexer@.pos;
    let mut exprs: Vec<Box<Expr>> = Vec::new();
    proof {
        assert(exprs_view(exprs@) =~= Seq::<SpecExpr>::empty());
    }
    loop
        invariant
            ts_wf(lexer@),
            lexer@.toks == toks,
            toks == old(lexer)@.toks,
            a0 == old(lexer)@.pos,
            0 <= a0 <= lexer@.pos <= toks.len(),
            spec_parse_args(toks, a0) == (match spec_parse_args(toks, lexer@.pos) {
                Ok((rest, p)) => Ok::<(Seq<SpecExpr>, int), SpecParseError>(
                    (exprs_view(exprs@) + rest, p),
                ),
                Err(e) => Err::<(Seq<SpecExpr>, int), SpecParseError>(e),
            }),
        decreases toks.len() - lexer@.pos,
    {
        let ghost cur = lexer@.pos;
        proof {
            lemma_expr_bounds(toks, cur, 0u8);
        }
        let e = parse_expr_bp(lexer, 0)?;
        let ghost p = lexer@.pos;
        let ghost ev = e@;
        let ghost prev = exprs@;
        exprs.push(Box::new(e));
        proof {
            lemma_exprs_view_push(prev, exprs@.last());
            assert(exprs_view(exprs@) == exprs_view(prev) + seq![ev]);
        }
        match lexer.expect_next() {
            Err(err) => {
                return Err(err);
            },
            Ok(t) => {
                match t {
                    Token::RightParen => {
                        proof {
                            assert(exprs_view(prev) + (seq![ev]) =~= exprs_view(exprs@));
                        }
                        return Ok(exprs);
                    },
                    Token::Comma => {
                        proof {
                            match spec_parse_args(toks, p + 1) {
                                Ok((rest, p2)) => {
                                    assert(exprs_view(prev) + (seq![ev] + rest) =~= exprs_view(
                                        exprs@,
                                    ) + rest);
                                },
                                _ => {},
                            }
                        }
                    },
                    _ => {
                        return Err(ParsingError::UnexpectedToken(t));
                    },
                }
            },
        }
    }
}

/// One expression, parsed by precedence climbing: operators whose left
/// binding power is below `min_bp` are left to the caller.
pub fn parse_expr_bp(lexer: &mut TokenSource, min_bp: u8) -> (r: Result<Expr, ParsingError>)
    requires
        ts_wf(old(lexer)@),
    ensures
        ts_wf(final(lexer)@),
        final(lexer)@.toks == old(lexer)@.toks,
        match spec_parse_expr(old(lexer)@.toks, old(lexer)@.pos, min_bp) {
            Ok((e, p)) => (r matches Ok(expr) && expr@ == e) && final(lexer)@.pos == p,
            Err(pe) => r matches Err(err) && err@ == pe,
        },
    decreases old(lexer)@.toks.len() - old(lexer)@.pos, 1int,
{
    let ghost toks = lexer@.toks;
    let ghost p0 = lexer@.pos;
    let token = lexer.expect_next()?;
    let mut lhs: Expr;
    match token {
        Token::Number(n) => {
            lhs = Expr::Constant(n);
        },
        Token::Identifier(i) => {
            let is_call = match lexer.peek() {
                Some(t) => matches!(t, Token::LeftParen),
                None => false,
            };
            if is_call {
                lexer.next();
                let at_rp = match lexer.peek() {
                    Some(t) => matches!(t, Token::RightParen),
                    None => {
                        return Err(ParsingError::UnexpectedEndOfInput);
                    },
                };
                if at_rp {
                    lexer.next();
                    let args: Vec<Box<Expr>> = Vec::new();
                    proof {
                        assert(exprs_view(args@) =~= Seq::<SpecExpr>::empty());
                    }
                    lhs = Expr::Call(i, args);
                } else {
                    proof {
                        lemma_args_bounds(toks, p0 + 2);
                    }
                    let args = parse_call_args(lexer)?;
                    lhs = Expr::Call(i, args);
                }
            } else {
                lhs = Expr::Symbol(i);
            }
        },
        Token::LeftParen => {
            proof {
                lemma_expr_bounds(toks, p0 + 1, 0u8);
            }
            let e = parse_expr_bp(lexer, 0)?;
            lexer.expect_token(Token::RightParen)?;
            lhs = e;
        },
        Token::Minus => {
            proof {
                lemma_expr_bounds(toks, p0 + 1, 5u8);
            }
            let rhs = parse_expr_bp(lexer, 5)?;
            lhs = Expr::Unary(Op::Sub, Box::new(rhs));
        },
        _ => {
            return Err(ParsingError::UnexpectedToken(token));
        },
    }
    loop
        invariant
            ts_wf(lexer@),
            lexer@.toks == toks,
            toks == old(lexer)@.toks,
            p0 == old(lexer)@.pos,
            0 <= p0 < lexer@.pos <= toks.len(),
            spec_parse_expr(toks, p0, min_bp) == spec_parse_infix(
                toks,
                lexer@.pos,
                lhs@,
                min_bp,
            ),
        decreases toks.len() - lexer@.pos,
    {
        let (op, l_bp, r_bp) = match lexer.peek() {
            None => {
                return Ok(lhs);
            },
            Some(t) => match infix_op(t) {
                None => {
                    return Ok(lhs);
                },
                Some(t3) => t3,
            },
        };
        if l_bp < min_bp {
            return Ok(lhs);
        }
        let ghost cur = lexer@.pos;
        let ghost lhs0 = lhs@;
        lexer.next();
        proof {
            lemma_expr_bounds(toks, cur + 1, r_bp);
        }
        let rhs = parse_expr_bp(lexer, r_bp)?;
        lhs = Expr::Binary(Box::new(lhs), op, Box::new(rhs));
        proof {
            assert(lhs@ == SpecExpr::Binary(
                Box::new(lhs0),
                spec_op_of(toks[cur]),
                Box::new(rhs@),
            ));
        }
    }
}

/// A statement list up to a closing brace or the end of the input.
pub fn parse_statements(tokens: &mut TokenSource) -> (r: Result<Vec<Stmt>, ParsingError>)
    requires
        ts_wf(old(tokens)@),
    ensures
        ts_wf(final(tokens)@),
        final(tokens)@.toks == old(tokens)@.toks,
        match spec_parse_stmts(old(tokens)@.toks, old(tokens)@.pos) {
            Ok((ss, p)) => (r matches Ok(v) && stmts_view(v@) == ss) && final(tokens)@.pos == p,
            Err(pe) => r matches Err(err) && err@ == pe,
        },
{
    let ghost toks = tokens@.toks;
    let ghost s0 = tokens@.pos;
    let mut output: Vec<Stmt> = Vec::new();
    proof {
        assert(stmts_view(output@) =~= Seq::<SpecStmt>::empty());
    }
    loop
        invariant
            ts_wf(tokens@),
            tokens@.toks == toks,
            toks == old(tokens)@.toks,
            s0 == old(tokens)@.pos,
            0 <= s0 <= tokens@.pos <= toks.len(),
            spec_parse_stmts(toks, s0) == (match spec_parse_stmts(toks, tokens@.pos) {
                Ok((ss, p)) => Ok::<(Seq<SpecStmt>, int), SpecParseError>(
                    (stmts_view(output@) + ss, p),
                ),
                Err(e) => Err::<(Seq<SpecStmt>, int), SpecParseError>(e),
            }),
        decreases toks.len() - tokens@.pos,
    {
        let ghost cur = tokens@.pos;
        let t = match tokens.next() {
            None => {
                proof {
                    assert(stmts_view(output@) + Seq::<SpecStmt>::empty() =~= stmts_view(output@));
                }
                return Ok(output);
            },
            Some(t) => t,
        };
        let stmt: Stmt;
        match t {
            Token::RightBrace => {
                proof {
                    assert(stmts_view(output@) + Seq::<SpecStmt>::empty() =~= stmts_view(output@));
                }
                return Ok(output);
            },
            Token::Return => {
                let at_end = match tokens.peek() {
                    Some(_) => false,
                    None => true,
                };
                if at_end {
                    stmt = Stmt::Return(None);
                } else {
                    proof {
                        lemma_expr_bounds(toks, cur + 1, 0u8);
                    }
                    let e = parse_expr_bp(tokens, 0)?;
                    stmt = Stmt::Return(Some(e));
                }
            },
            Token::Let => {
                let ident = tokens.expect_identifier()?;
                tokens.expect_token(Token::Equals)?;
                proof {
                    lemma_expr_bounds(toks, cur + 3, 0u8);
                }
                let e = parse_expr_bp(tokens, 0)?;
                stmt = Stmt::Assignment(ident, e);
            },
            _ => {
                return Err(ParsingError::UnexpectedToken(t));
            },
        }
        let ghost p_end = tokens@.pos;
        let ghost sv = stmt@;
        let ghost prev = output@;
        output.push(stmt);
        // the advisory statement terminator: one token, unchecked
        tokens.next();
        proof {
            assert(stmts_view(output@) =~= stmts_view(prev) + seq![sv]);
            assert(spec_parse_stmts(toks, cur) == spec_stmts_cont(toks, cur, sv, p_end));
            match spec_parse_stmts(toks, tokens@.pos) {
                Ok((rest, p3)) => {
                    assert(stmts_view(prev) + (seq![sv] + rest) =~= stmts_view(output@) + rest);
                },
                _ => {},
            }
        }
    }
}

/// The whole program: an ordered sequence of function declarations.
pub fn parse_program(tokens: &mut TokenSource) -> (r: Result<Program, ParsingError>)
    requires
        ts_wf(old(tokens)@),
    ensures
        ts_wf(final(tokens)@),
        final(tokens)@.toks == old(tokens)@.toks,
        match spec_parse_program(old(tokens)@.toks, old(tokens)@.pos) {
            Ok(fs) => r matches Ok(prog) && prog@.functions == fs,
            Err(pe) => r matches Err(err) && err@ == pe,
        },
{
    let ghost toks = tokens@.toks;
    let ghost g0 = tokens@.pos;
    let mut program = Program::new();
    proof {
        assert(funcs_view(program.functions@) =~= Seq::<SpecFuncDecl>::empty());
    }
    loop
        invariant
            ts_wf(tokens@),
            tokens@.toks == toks,
            toks == old(tokens)@.toks,
            g0 == old(tokens)@.pos,
            0 <= g0 <= tokens@.pos <= toks.len(),
            program@.functions == funcs_view(program.functions@),
            spec_parse_program(toks, g0) == (match spec_parse_program(toks, tokens@.pos) {
                Ok(fs) => Ok::<Seq<SpecFuncDecl>, SpecParseError>(
                    funcs_view(program.functions@) + fs,
                ),
                Err(e) => Err::<Seq<SpecFuncDecl>, SpecParseError>(e),
            }),
        decreases toks.len() - tokens@.pos,
    {
        let ghost cur = tokens@.pos;
        match tokens.next() {
            None => {
                proof {
                    assert(funcs_view(program.functions@) + Seq::<SpecFuncDecl>::empty()
                        =~= funcs_view(program.functions@));
                }
                return Ok(program);
            },
            Some(_) => {},
        }
        let ident = tokens.expect_identifier()?;
        tokens.expect_token(Token::LeftParen)?;
        tokens.expect_token(Token::RightParen)?;
        tokens.expect_token(Token::LeftBrace)?;
        proof {
            lemma_stmts_bounds(toks, cur + 5);
        }
        let statements = parse_statements(tokens)?;
        let ghost p = tokens@.pos;
        let ghost prev = program.functions@;
        let ghost fv = SpecFuncDecl { name: ident@, body: stmts_view(statements@) };
        program.functions.push(FuncDecl { name: ident, body: statements });
        proof {
            assert(funcs_view(program.functions@) =~= funcs_view(prev) + seq![fv]);
            match spec_parse_program(toks, p) {
                Ok(fs) => {
                    assert(funcs_view(prev) + (seq![fv] + fs) =~= funcs_view(program.functions@)
                        + fs);
                },
                _ => {},
            }
        }
    }
}

} // verus!

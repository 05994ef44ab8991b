//! Lexical scanner: character stream to token stream.
//!
//! The scanner consumes a character source and produces a finite sequence of
//! tokens, or fails the entire scan on the first error.  It skips whitespace
//! and `//` line comments, recognises single-character punctuation, numeric
//! literals (a digit run, optionally followed by `.` and another digit run)
//! and identifiers (keyword lookup is case-insensitive).
//!
//! A numeric literal is represented exactly as scanned: its whole part as a
//! non-negative 64-bit integer and its fractional digits as written.  A whole
//! part that does not fit in a signed 64-bit integer fails the scan with
//! `InvalidLiteral`.

use vstd::prelude::*;

use crate::text::push_char;

verus! {

/// A scanned numeric literal: the value of its whole part, and the digits
/// written after the decimal point (empty when the literal has no point).
#[derive(Debug, Clone, PartialEq)]
pub struct NumberLit {
    pub whole: i64,
    pub frac: Vec<char>,
}

/// Mathematical model of a numeric literal.
pub ghost struct SpecNumber {
    pub whole: int,
    pub frac: Seq<char>,
}

#[derive(Debug, Clone, PartialEq)]
pub enum Token {
    LeftParen,
    RightParen,
    LeftBrace,
    RightBrace,
    Equals,
    Comma,
    Semicolon,
    Plus,
    Minus,
    Star,
    Slash,
    Fun,
    Let,
    Return,
    Identifier(String),
    Number(NumberLit),
}

/// Mathematical model of a token.
pub ghost enum SpecToken {
    LeftParen,
    RightParen,
    LeftBrace,
    RightBrace,
    Equals,
    Comma,
    Semicolon,
    Plus,
    Minus,
    Star,
    Slash,
    Fun,
    Let,
    Return,
    Identifier(Seq<char>),
    Number(SpecNumber),
}

impl View for NumberLit {
    type V = SpecNumber;

    open spec fn view(&self) -> SpecNumber {
        SpecNumber { whole: self.whole as int, frac: self.frac@ }
    }
}

impl View for Token {
    type V = SpecToken;

    open spec fn view(&self) -> SpecToken {
        match self {
            Token::LeftParen => SpecToken::LeftParen,
            Token::RightParen => SpecToken::RightParen,
            Token::LeftBrace => SpecToken::LeftBrace,
            Token::RightBrace => SpecToken::RightBrace,
            Token::Equals => SpecToken::Equals,
            Token::Comma => SpecToken::Comma,
            Token::Semicolon => SpecToken::Semicolon,
            Token::Plus => SpecToken::Plus,
            Token::Minus => SpecToken::Minus,
            Token::Star => SpecToken::Star,
            Token::Slash => SpecToken::Slash,
            Token::Fun => SpecToken::Fun,
            Token::Let => SpecToken::Let,
            Token::Return => SpecToken::Return,
            Token::Identifier(s) => SpecToken::Identifier(s@),
            Token::Number(n) => SpecToken::Number(n@),
        }
    }
}

/// The token views of a token sequence.
pub open spec fn spec_tokens(v: Seq<Token>) -> Seq<SpecToken> {
    v.map_values(|t: Token| t@)
}

#[derive(Debug, Clone, PartialEq)]
pub enum ScanningProduct {
    Skip,
    Finished,
    Token(Token),
}

#[derive(Debug, Clone, PartialEq)]
pub enum ScanningError {
    UnexpectedCharacter(char),
    InvalidLiteral,
    UnexpectedEndOfFile,
}

// ---------------------------------------------------------------------------
// Character classes (the scanner recognises the ASCII classes).
// ---------------------------------------------------------------------------

pub open spec fn is_digit_c(c: char) -> bool {
    '0' as u32 <= c as u32 && c as u32 <= '9' as u32
}

/// Start of an identifier: an ASCII letter or an underscore.
pub open spec fn is_alpha_c(c: char) -> bool {
    ('a' as u32 <= c as u32 && c as u32 <= 'z' as u32) || ('A' as u32 <= c as u32 && c as u32
        <= 'Z' as u32) || c == '_'
}

/// Continuation of an identifier.
pub open spec fn is_ident_c(c: char) -> bool {
    is_alpha_c(c) || is_digit_c(c)
}

/// Whitespace other than a newline (which the scanner counts separately).
pub open spec fn is_space_c(c: char) -> bool {
    c == ' ' || c == '\t' || c == '\r'
}

fn is_digit(c: char) -> (b: bool)
    ensures
        b == is_digit_c(c),
{
    let u = c as u32;
    ('0' as u32) <= u && u <= ('9' as u32)
}

fn is_alpha(c: char) -> (b: bool)
    ensures
        b == is_alpha_c(c),
{
    let u = c as u32;
    (('a' as u32) <= u && u <= ('z' as u32)) || (('A' as u32) <= u && u <= ('Z' as u32)) || c == '_'
}

fn is_ident(c: char) -> (b: bool)
    ensures
        b == is_ident_c(c),
{
    is_alpha(c) || is_digit(c)
}

fn is_space(c: char) -> (b: bool)
    ensures
        b == is_space_c(c),
{
    c == ' ' || c == '\t' || c == '\r'
}

// ---------------------------------------------------------------------------
// The scan, as a mathematical function of the character sequence.
// ---------------------------------------------------------------------------

/// End of the identifier-character run that starts at `i`.
pub open spec fn ident_end(s: Seq<char>, i: int) -> int
    decreases s.len() - i
        when 0 <= i <= s.len()
{
    if i >= s.len() {
        i
    } else if is_ident_c(s[i]) {
        ident_end(s, i + 1)
    } else {
        i
    }
}

/// End of the digit run that starts at `i`.
pub open spec fn digit_end(s: Seq<char>, i: int) -> int
    decreases s.len() - i
        when 0 <= i <= s.len()
{
    if i >= s.len() {
        i
    } else if is_digit_c(s[i]) {
        digit_end(s, i + 1)
    } else {
        i
    }
}

/// Index of the first newline at or after `i`, if any.
pub open spec fn comment_end(s: Seq<char>, i: int) -> Option<int>
    decreases s.len() - i
        when 0 <= i <= s.len()
{
    if i >= s.len() {
        None
    } else if s[i] == '\n' {
        Some(i)
    } else {
        comment_end(s, i + 1)
    }
}

/// Value of a run of decimal digit characters, most significant first.
pub open spec fn digits_val(s: Seq<char>) -> int
    decreases s.len(),
{
    if s.len() == 0 {
        0
    } else {
        10 * digits_val(s.drop_last()) + (s.last() as u32 - '0' as u32)
    }
}

/// Case-insensitive comparison of `s` against a lower-case keyword.
pub open spec fn lower_code(c: char) -> int {
    if 'A' as u32 <= c as u32 && c as u32 <= 'Z' as u32 {
        c as u32 + 32
    } else {
        c as u32 as int
    }
}

pub open spec fn ci_match(s: Seq<char>, kw: Seq<char>) -> bool {
    s.len() == kw.len() && forall|i: int|
        0 <= i < s.len() ==> lower_code(s[i]) == kw[i] as u32
}

/// The keyword table: `return`, `fun`, `let`, matched case-insensitively.
pub open spec fn spec_keyword(s: Seq<char>) -> Option<SpecToken> {
    if ci_match(s, seq!['r', 'e', 't', 'u', 'r', 'n']) {
        Some(SpecToken::Return)
    } else if ci_match(s, seq!['f', 'u', 'n']) {
        Some(SpecToken::Fun)
    } else if ci_match(s, seq!['l', 'e', 't']) {
        Some(SpecToken::Let)
    } else {
        None
    }
}

/// Outcome of one scanning step: end of input, characters skipped up to a
/// new position, or one token ending at a new position.
pub ghost enum SpecNext {
    Done,
    Skip(int),
    Tok(SpecToken, int),
}

/// One numeric literal starting at `pos` (where a digit stands).
pub open spec fn spec_scan_number(s: Seq<char>, pos: int) -> Result<SpecNext, ScanningError> {
    let e1 = digit_end(s, pos);
    let whole = s.subrange(pos, e1);
    if e1 < s.len() && s[e1] == '.' {
        let e2 = digit_end(s, e1 + 1);
        let frac = s.subrange(e1 + 1, e2);
        if digits_val(whole) > i64::MAX as int {
            Err(ScanningError::InvalidLiteral)
        } else {
            Ok(SpecNext::Tok(SpecToken::Number(SpecNumber { whole: digits_val(whole), frac }), e2))
        }
    } else {
        if digits_val(whole) > i64::MAX as int {
            Err(ScanningError::InvalidLiteral)
        } else {
            Ok(
                SpecNext::Tok(
                    SpecToken::Number(SpecNumber { whole: digits_val(whole), frac: Seq::empty() }),
                    e1,
                ),
            )
        }
    }
}

/// One identifier or keyword starting at `pos` (where a letter stands).
pub open spec fn spec_scan_ident(s: Seq<char>, pos: int) -> Result<SpecNext, ScanningError> {
    let e = ident_end(s, pos + 1);
    let text = s.subrange(pos, e);
    match spec_keyword(text) {
        Some(k) => Ok(SpecNext::Tok(k, e)),
        None => Ok(SpecNext::Tok(SpecToken::Identifier(text), e)),
    }
}

/// One scanning step at `pos`: the token, skip or failure the scanner
/// produces from the character class found there.
pub open spec fn spec_next(s: Seq<char>, pos: int) -> Result<SpecNext, ScanningError> {
    if pos >= s.len() {
        Ok(SpecNext::Done)
    } else {
        let c = s[pos];
        if c == '(' {
            Ok(SpecNext::Tok(SpecToken::LeftParen, pos + 1))
        } else if c == ')' {
            Ok(SpecNext::Tok(SpecToken::RightParen, pos + 1))
        } else if c == '{' {
            Ok(SpecNext::Tok(SpecToken::LeftBrace, pos + 1))
        } else if c == '}' {
            Ok(SpecNext::Tok(SpecToken::RightBrace, pos + 1))
        } else if c == '=' {
            Ok(SpecNext::Tok(SpecToken::Equals, pos + 1))
        } else if c == '-' {
            Ok(SpecNext::Tok(SpecToken::Minus, pos + 1))
        } else if c == '+' {
            Ok(SpecNext::Tok(SpecToken::Plus, pos + 1))
        } else if c == '/' {
            if pos + 1 < s.len() && s[pos + 1] == '/' {
                match comment_end(s, pos + 1) {
                    Some(j) => Ok(SpecNext::Skip(j + 1)),
                    None => Err(ScanningError::UnexpectedEndOfFile),
                }
            } else {
                Ok(SpecNext::Tok(SpecToken::Slash, pos + 1))
            }
        } else if c == '*' {
            Ok(SpecNext::Tok(SpecToken::Star, pos + 1))
        } else if c == ',' {
            Ok(SpecNext::Tok(SpecToken::Comma, pos + 1))
        } else if c == ';' {
            Ok(SpecNext::Tok(SpecToken::Semicolon, pos + 1))
        } else if c == '\n' {
            Ok(SpecNext::Skip(pos + 1))
        } else if is_space_c(c) {
            Ok(SpecNext::Skip(pos + 1))
        } else if is_digit_c(c) {
            spec_scan_number(s, pos)
        } else if is_alpha_c(c) {
            spec_scan_ident(s, pos)
        } else {
            Err(ScanningError::UnexpectedCharacter(c))
        }
    }
}

/// The whole scan from `pos`: the token sequence of the rest of the input,
/// or the first error.
pub open spec fn spec_scan_all(s: Seq<char>, pos: int) -> Result<Seq<SpecToken>, ScanningError>
    decreases s.len() - pos
        when 0 <= pos <= s.len()
{
    match spec_next(s, pos) {
        Err(e) => Err(e),
        Ok(SpecNext::Done) => Ok(Seq::empty()),
        Ok(SpecNext::Skip(p)) => if pos < p <= s.len() {
            spec_scan_all(s, p)
        } else {
            Err(ScanningError::UnexpectedEndOfFile)
        },
        Ok(SpecNext::Tok(t, p)) => if pos < p <= s.len() {
            match spec_scan_all(s, p) {
                Ok(ts) => Ok(seq![t] + ts),
                Err(e) => Err(e),
            }
        } else {
            Err(ScanningError::UnexpectedEndOfFile)
        },
    }
}

// ---------------------------------------------------------------------------
// Facts about the scanning step.
// ---------------------------------------------------------------------------

pub proof fn lemma_ident_end(s: Seq<char>, i: int)
    requires
        0 <= i <= s.len(),
    ensures
        i <= ident_end(s, i) <= s.len(),
        ident_end(s, i) < s.len() ==> !is_ident_c(s[ident_end(s, i)]),
        forall|j: int| i <= j < ident_end(s, i) ==> is_ident_c(s[j]),
    decreases s.len() - i,
{
    if i < s.len() && is_ident_c(s[i]) {
        lemma_ident_end(s, i + 1);
    }
}

pub proof fn lemma_digit_end(s: Seq<char>, i: int)
    requires
        0 <= i <= s.len(),
    ensures
        i <= digit_end(s, i) <= s.len(),
        digit_end(s, i) < s.len() ==> !is_digit_c(s[digit_end(s, i)]),
        forall|j: int| i <= j < digit_end(s, i) ==> is_digit_c(s[j]),
    decreases s.len() - i,
{
    if i < s.len() && is_digit_c(s[i]) {
        lemma_digit_end(s, i + 1);
    }
}

pub proof fn lemma_comment_end(s: Seq<char>, i: int)
    requires
        0 <= i <= s.len(),
    ensures
        match comment_end(s, i) {
            Some(j) => i <= j < s.len() && s[j] == '\n' && forall|k: int|
                i <= k < j ==> s[k] != '\n',
            None => forall|k: int| i <= k < s.len() ==> s[k] != '\n',
        },
    decreases s.len() - i,
{
    if i < s.len() && s[i] != '\n' {
        lemma_comment_end(s, i + 1);
    }
}

/// Law: scanning is deterministic.  The whole scan is a mathematical
/// function of the character sequence alone, so scanning the same source
/// text twice yields identical token sequences — `scan_all`'s contract
/// pins its result to this function.
pub proof fn lemma_scan_deterministic(s1: SpecScanner, s2: SpecScanner)
    requires
        s1.input == s2.input,
        s1.pos == s2.pos,
    ensures
        spec_scan_all(s1.input, s1.pos) == spec_scan_all(s2.input, s2.pos),
{
}

/// Every step that is not the end of the input advances the position.
pub proof fn lemma_next_advances(s: Seq<char>, pos: int)
    requires
        0 <= pos <= s.len(),
    ensures
        match spec_next(s, pos) {
            Ok(SpecNext::Done) => pos == s.len(),
            Ok(SpecNext::Skip(p)) => pos < p <= s.len(),
            Ok(SpecNext::Tok(_, p)) => pos < p <= s.len(),
            Err(_) => true,
        },
{
    if pos < s.len() {
        let c = s[pos];
        if c == '/' && pos + 1 < s.len() && s[pos + 1] == '/' {
            lemma_comment_end(s, pos + 1);
        }
        if is_digit_c(c) && !(c == '(' || c == ')' || c == '{' || c == '}' || c == '=' || c == '-'
            || c == '+' || c == '/' || c == '*' || c == ',' || c == ';' || c == '\n' || is_space_c(
            c,
        )) {
            lemma_digit_end(s, pos);
            assert(digit_end(s, pos) == digit_end(s, pos + 1));
            let e1 = digit_end(s, pos);
            if e1 < s.len() && s[e1] == '.' {
                lemma_digit_end(s, e1 + 1);
            }
        }
        if is_alpha_c(c) && !is_digit_c(c) && !(c == '(' || c == ')' || c == '{' || c == '}' || c
            == '=' || c == '-' || c == '+' || c == '/' || c == '*' || c == ',' || c == ';' || c
            == '\n' || is_space_c(c)) {
            lemma_ident_end(s, pos + 1);
        }
    }
}

// ---------------------------------------------------------------------------
// The executable scanner.
// ---------------------------------------------------------------------------

/// Cursor state over the character source, with line/column counters kept
/// for future diagnostics (they are not surfaced by any result).
pub struct Scanner {
    input: Vec<char>,
    pos: usize,
    line: usize,
    offset: usize,
}

pub ghost struct SpecScanner {
    pub input: Seq<char>,
    pub pos: int,
    pub line: int,
    pub offset: int,
}

impl View for Scanner {
    type V = SpecScanner;

    closed spec fn view(&self) -> SpecScanner {
        SpecScanner {
            input: self.input@,
            pos: self.pos as int,
            line: self.line as int,
            offset: self.offset as int,
        }
    }
}

pub open spec fn scanner_wf(s: SpecScanner) -> bool {
    &&& 0 <= s.pos <= s.input.len()
    &&& s.input.len() < usize::MAX
    &&& 0 <= s.offset <= s.pos
    &&& 1 <= s.line <= s.pos + 1
}

impl Scanner {
    pub fn new(input: Vec<char>) -> (r: Scanner)
        requires
            input@.len() < usize::MAX,
        ensures
            scanner_wf(r@),
            r@.input == input@,
            r@.pos == 0,
    {
        Scanner { input, pos: 0, line: 1, offset: 0 }
    }

    /// The next character, if any, without consuming it.
    pub fn peek(&self) -> (r: Option<char>)
        ensures
            r == (if self@.pos < self@.input.len() {
                Some(self@.input[self@.pos])
            } else {
                None::<char>
            }),
    {
        if self.pos < self.input.len() {
            Some(self.input[self.pos])
        } else {
            None
        }
    }

    /// Consumes and returns the next character; the column counter counts
    /// the consumed characters of the current line.
    pub fn advance(&mut self) -> (r: Option<char>)
        requires
            scanner_wf(old(self)@),
        ensures
            scanner_wf(final(self)@),
            final(self)@.input == old(self)@.input,
            final(self)@.line == old(self)@.line,
            old(self)@.pos < old(self)@.input.len() ==> {
                &&& r == Some(old(self)@.input[old(self)@.pos])
                &&& final(self)@.pos == old(self)@.pos + 1
                &&& final(self)@.offset == old(self)@.offset + 1
            },
            old(self)@.pos >= old(self)@.input.len() ==> r is None && final(self)@ == old(self)@,
    {
        if self.pos < self.input.len() {
            let c = self.input[self.pos];
            self.pos = self.pos + 1;
            self.offset = self.offset + 1;
            Some(c)
        } else {
            None
        }
    }

    fn peek_is_ident(&self) -> (b: bool)
        ensures
            b == (self@.pos < self@.input.len() && is_ident_c(self@.input[self@.pos])),
    {
        match self.peek() {
            Some(c) => is_ident(c),
            None => false,
        }
    }

    fn peek_is_digit(&self) -> (b: bool)
        ensures
            b == (self@.pos < self@.input.len() && is_digit_c(self@.input[self@.pos])),
    {
        match self.peek() {
            Some(c) => is_digit(c),
            None => false,
        }
    }

    /// The token for a keyword, matched case-insensitively; `None` for any
    /// other text.
    pub fn keyword(&self, what: &str) -> (r: Option<Token>)
        ensures
            match r {
                Some(t) => spec_keyword(what@) == Some(t@),
                None => spec_keyword(what@) is None,
            },
    {
        proof {
            reveal_strlit("return");
            reveal_strlit("fun");
            reveal_strlit("let");
            assert("return"@ =~= seq!['r', 'e', 't', 'u', 'r', 'n']);
            assert("fun"@ =~= seq!['f', 'u', 'n']);
            assert("let"@ =~= seq!['l', 'e', 't']);
        }
        if ci_eq(what, "return") {
            Some(Token::Return)
        } else if ci_eq(what, "fun") {
            Some(Token::Fun)
        } else if ci_eq(what, "let") {
            Some(Token::Let)
        } else {
            None
        }
    }
}

fn lower_of(c: char) -> (r: u32)
    ensures
        r as int == lower_code(c),
{
    let u = c as u32;
    if ('A' as u32) <= u && u <= ('Z' as u32) {
        u + 32
    } else {
        u
    }
}

proof fn lemma_digits_val_push(s: Seq<char>, c: char)
    ensures
        digits_val(s.push(c)) == 10 * digits_val(s) + (c as u32 - '0' as u32),
{
    assert(s.push(c).drop_last() =~= s);
    assert(s.push(c).last() == c);
}

impl Scanner {
    /// One identifier or keyword whose first character, `begin`, was just
    /// consumed.
    pub fn scan_identifier(&mut self, begin: char) -> (r: Result<
        ScanningProduct,
        ScanningError,
    >)
        requires
            scanner_wf(old(self)@),
            1 <= old(self)@.pos,
            begin == old(self)@.input[old(self)@.pos - 1],
            is_alpha_c(begin),
        ensures
            scanner_wf(final(self)@),
            final(self)@.input == old(self)@.input,
            final(self)@.line == old(self)@.line,
            match spec_scan_ident(old(self)@.input, old(self)@.pos - 1) {
                Ok(SpecNext::Tok(t, p)) => (r matches Ok(ScanningProduct::Token(tok)) && tok@ == t)
                    && final(self)@.pos == p,
                _ => false,
            },
    {
        let ghost s = self@.input;
        let ghost start = self@.pos - 1;
        let mut ident = String::new();
        push_char(&mut ident, begin);
        proof {
            assert(ident@ =~= s.subrange(start, start + 1));
        }
        while self.peek_is_ident()
            invariant
                scanner_wf(self@),
                self@.input == s,
                self@.line == old(self)@.line,
                0 <= start,
                start + 1 <= self@.pos <= s.len(),
                ident@ == s.subrange(start, self@.pos),
                ident_end(s, start + 1) == ident_end(s, self@.pos),
            decreases s.len() - self@.pos,
        {
            let ghost p = self@.pos;
            let c2 = self.advance().unwrap();
            push_char(&mut ident, c2);
            proof {
                assert(ident@ =~= s.subrange(start, p + 1));
            }
        }
        proof {
            assert(ident_end(s, self@.pos) == self@.pos);
        }
        match self.keyword(ident.as_str()) {
            Some(k) => Ok(ScanningProduct::Token(k)),
            None => Ok(ScanningProduct::Token(Token::Identifier(ident))),
        }
    }

    /// One numeric literal whose first digit, `begin`, was just consumed.
    pub fn scan_numerics(&mut self, begin: char) -> (r: Result<ScanningProduct, ScanningError>)
        requires
            scanner_wf(old(self)@),
            1 <= old(self)@.pos,
            begin == old(self)@.input[old(self)@.pos - 1],
            is_digit_c(begin),
        ensures
            scanner_wf(final(self)@),
            final(self)@.input == old(self)@.input,
            final(self)@.line == old(self)@.line,
            final(self)@.pos >= old(self)@.pos,
            match spec_scan_number(old(self)@.input, old(self)@.pos - 1) {
                Ok(SpecNext::Tok(t, p)) => (r matches Ok(ScanningProduct::Token(tok)) && tok@ == t)
                    && final(self)@.pos == p,
                Err(e) => r == Err::<ScanningProduct, ScanningError>(e),
                _ => false,
            },
    {
        let ghost s = self@.input;
        let ghost start = self@.pos - 1;
        let mut acc: u64 = (begin as u32 - '0' as u32) as u64;
        let mut over = false;
        proof {
            assert(s.subrange(start, start + 1) =~= Seq::empty().push(begin));
            lemma_digits_val_push(Seq::empty(), begin);
        }
        while self.peek_is_digit()
            invariant
                scanner_wf(self@),
                self@.input == s,
                self@.line == old(self)@.line,
                0 <= start,
                start + 1 <= self@.pos <= s.len(),
                digit_end(s, start + 1) == digit_end(s, self@.pos),
                forall|j: int| start <= j < self@.pos ==> is_digit_c(s[j]),
                !over ==> acc as int == digits_val(s.subrange(start, self@.pos)) && acc
                    <= i64::MAX as u64,
                over ==> digits_val(s.subrange(start, self@.pos)) > i64::MAX as int,
            decreases s.len() - self@.pos,
        {
            let ghost p = self@.pos;
            let c = self.advance().unwrap();
            let d: u64 = (c as u32 - '0' as u32) as u64;
            proof {
                assert(s.subrange(start, p + 1) =~= s.subrange(start, p).push(c));
                lemma_digits_val_push(s.subrange(start, p), c);
            }
            if over {
            } else if acc > 922337203685477580u64 || (acc == 922337203685477580u64 && d > 7) {
                over = true;
            } else {
                acc = acc * 10 + d;
            }
        }
        proof {
            assert(digit_end(s, self@.pos) == self@.pos);
            assert(digit_end(s, start) == digit_end(s, start + 1));
        }
        let dotted = match self.peek() {
            Some(c) => c == '.',
            None => false,
        };
        let ghost e1 = self@.pos;
        if dotted {
            self.advance();
            let mut frac: Vec<char> = Vec::new();
            proof {
                assert(frac@ =~= s.subrange(e1 + 1, e1 + 1));
            }
            while self.peek_is_digit()
                invariant
                    scanner_wf(self@),
                    self@.input == s,
                    self@.line == old(self)@.line,
                    0 <= e1 < s.len(),
                    e1 + 1 <= self@.pos <= s.len(),
                    digit_end(s, e1 + 1) == digit_end(s, self@.pos),
                    frac@ == s.subrange(e1 + 1, self@.pos),
                decreases s.len() - self@.pos,
            {
                let ghost p = self@.pos;
                let c = self.advance().unwrap();
                frac.push(c);
                proof {
                    assert(frac@ =~= s.subrange(e1 + 1, p + 1));
                }
            }
            proof {
                assert(digit_end(s, self@.pos) == self@.pos);
            }
            if over {
                Err(ScanningError::InvalidLiteral)
            } else {
                Ok(ScanningProduct::Token(Token::Number(NumberLit { whole: acc as i64, frac })))
            }
        } else {
            if over {
                Err(ScanningError::InvalidLiteral)
            } else {
                let frac: Vec<char> = Vec::new();
                Ok(ScanningProduct::Token(Token::Number(NumberLit { whole: acc as i64, frac })))
            }
        }
    }
}

impl Scanner {
    /// One scanning step: the next token, a skip over whitespace or a
    /// comment, the end of the input, or the first error.
    pub fn scan_token(&mut self) -> (r: Result<ScanningProduct, ScanningError>)
        requires
            scanner_wf(old(self)@),
        ensures
            scanner_wf(final(self)@),
            final(self)@.input == old(self)@.input,
            final(self)@.pos >= old(self)@.pos,
            match spec_next(old(self)@.input, old(self)@.pos) {
                Ok(SpecNext::Done) => r == Ok::<ScanningProduct, ScanningError>(
                    ScanningProduct::Finished,
                ) && final(self)@.pos == old(self)@.pos,
                Ok(SpecNext::Skip(p)) => r == Ok::<ScanningProduct, ScanningError>(
                    ScanningProduct::Skip,
                ) && final(self)@.pos == p,
                Ok(SpecNext::Tok(t, p)) => (r matches Ok(ScanningProduct::Token(tok)) && tok@ == t)
                    && final(self)@.pos == p,
                Err(e) => r == Err::<ScanningProduct, ScanningError>(e),
            },
    {
        let ghost s = self@.input;
        let ghost start = self@.pos;
        proof {
            lemma_next_advances(s, start);
        }
        let c = match self.advance() {
            Some(c) => c,
            None => {
                return Ok(ScanningProduct::Finished);
            },
        };
        if c == '(' {
            Ok(ScanningProduct::Token(Token::LeftParen))
        } else if c == ')' {
            Ok(ScanningProduct::Token(Token::RightParen))
        } else if c == '{' {
            Ok(ScanningProduct::Token(Token::LeftBrace))
        } else if c == '}' {
            Ok(ScanningProduct::Token(Token::RightBrace))
        } else if c == '=' {
            Ok(ScanningProduct::Token(Token::Equals))
        } else if c == '-' {
            Ok(ScanningProduct::Token(Token::Minus))
        } else if c == '+' {
            Ok(ScanningProduct::Token(Token::Plus))
        } else if c == '/' {
            let second = match self.peek() {
                Some(c2) => c2 == '/',
                None => false,
            };
            if second {
                // A line comment: consume up to and including the newline;
                // the end of the input inside the comment is an error.
                loop
                    invariant
                        scanner_wf(self@),
                        self@.input == s,
                        s == old(self)@.input,
                        start == old(self)@.pos,
                        0 <= start,
                        start + 1 <= self@.pos <= s.len(),
                        self@.line <= start + 1,
                        comment_end(s, start + 1) == comment_end(s, self@.pos),
                        spec_next(s, start) == (match comment_end(s, start + 1) {
                            Some(j) => Ok::<SpecNext, ScanningError>(SpecNext::Skip(j + 1)),
                            None => Err::<SpecNext, ScanningError>(
                                ScanningError::UnexpectedEndOfFile,
                            ),
                        }),
                    decreases s.len() - self@.pos,
                {
                    let ghost p = self@.pos;
                    match self.advance() {
                        None => {
                            return Err(ScanningError::UnexpectedEndOfFile);
                        },
                        Some(ch) => {
                            if ch == '\n' {
                                self.line = self.line + 1;
                                self.offset = 0;
                                return Ok(ScanningProduct::Skip);
                            }
                        },
                    }
                }
            } else {
                Ok(ScanningProduct::Token(Token::Slash))
            }
        } else if c == '*' {
            Ok(ScanningProduct::Token(Token::Star))
        } else if c == ',' {
            Ok(ScanningProduct::Token(Token::Comma))
        } else if c == ';' {
            Ok(ScanningProduct::Token(Token::Semicolon))
        } else if c == '\n' {
            self.line = self.line + 1;
            self.offset = 0;
            Ok(ScanningProduct::Skip)
        } else if is_space(c) {
            Ok(ScanningProduct::Skip)
        } else if is_digit(c) {
            self.scan_numerics(c)
        } else if is_alpha(c) {
            self.scan_identifier(c)
        } else {
            Err(ScanningError::UnexpectedCharacter(c))
        }
    }

    /// Drains the scanner into an ordered token list; any scan error aborts
    /// the whole operation and discards the partial output.
    pub fn scan_all(self) -> (r: Result<Vec<Token>, ScanningError>)
        requires
            scanner_wf(self@),
        ensures
            match spec_scan_all(self@.input, self@.pos) {
                Ok(ts) => r matches Ok(v) && spec_tokens(v@) == ts,
                Err(e) => r == Err::<Vec<Token>, ScanningError>(e),
            },
    {
        let ghost s = self@.input;
        let ghost p0 = self@.pos;
        let mut this = self;
        let mut output: Vec<Token> = Vec::new();
        proof {
            assert(spec_tokens(output@) =~= Seq::<SpecToken>::empty());
        }
        loop
            invariant
                scanner_wf(this@),
                this@.input == s,
                s == self@.input,
                p0 == self@.pos,
                0 <= p0 <= s.len(),
                spec_scan_all(s, p0) == (match spec_scan_all(s, this@.pos) {
                    Ok(ts) => Ok::<Seq<SpecToken>, ScanningError>(spec_tokens(output@) + ts),
                    Err(e) => Err::<Seq<SpecToken>, ScanningError>(e),
                }),
            decreases s.len() - this@.pos,
        {
            let ghost pcur = this@.pos;
            proof {
                lemma_next_advances(s, pcur);
            }
            match this.scan_token() {
                Err(e) => {
                    return Err(e);
                },
                Ok(ScanningProduct::Finished) => {
                    proof {
                        assert(spec_tokens(output@) + Seq::<SpecToken>::empty() =~= spec_tokens(
                            output@,
                        ));
                    }
                    return Ok(output);
                },
                Ok(ScanningProduct::Skip) => {
                },
                Ok(ScanningProduct::Token(t)) => {
                    let ghost prev = output@;
                    output.push(t);
                    proof {
                        assert(spec_tokens(output@) =~= spec_tokens(prev) + seq![t@]);
                        if spec_scan_all(s, this@.pos) is Ok {
                            let ts = spec_scan_all(s, this@.pos)->Ok_0;
                            assert(spec_tokens(prev) + (seq![t@] + ts) =~= spec_tokens(output@)
                                + ts);
                        }
                    }
                },
            }
        }
    }
}

/// Case-insensitive equality of two pieces of text.
fn ci_eq(a: &str, b: &str) -> (r: bool)
    ensures
        r == ci_match(a@, b@),
{
    let alen = a.unicode_len();
    let blen = b.unicode_len();
    if alen != blen {
        return false;
    }
    let mut i: usize = 0;
    while i < alen
        invariant
            a@.len() == alen == blen == b@.len(),
            0 <= i <= alen,
            forall|j: int| 0 <= j < i ==> lower_code(a@[j]) == b@[j] as u32,
        decreases alen - i,
    {
        let ca = a.get_char(i);
        let cb = b.get_char(i);
        if lower_of(ca) != cb as u32 {
            return false;
        }
        i = i + 1;
    }
    true
}

} // verus!

//! The scanner: source text to a token stream.

use vstd::prelude::*;

use super::span::Span;

verus! {

/// A surface token.
#[derive(Clone, Debug)]
pub enum Token {
    U32Type,
    BoolType,
    Arrow,
    Assign,
    LBrace,
    RBrace,
    LParen,
    RParen,
    LSquare,
    RSquare,
    Bar,
    Comma,
    Colon,
    Semicolon,
    Fn,
    Return,
    Add,
    Sub,
    Mul,
    Div,
    Not,
    Eq,
    Ne,
    Lt,
    Le,
    Gt,
    Ge,
    U32Value(u32),
    BoolValue(bool),
    Identifier(String),
    Unexpected(char),
}

impl PartialEq for Token {
    fn eq(&self, other: &Token) -> (r: bool) {
        match (self, other) {
            (Token::U32Type, Token::U32Type) => true,
            (Token::BoolType, Token::BoolType) => true,
            (Token::Arrow, Token::Arrow) => true,
            (Token::Assign, Token::Assign) => true,
            (Token::LBrace, Token::LBrace) => true,
            (Token::RBrace, Token::RBrace) => true,
            (Token::LParen, Token::LParen) => true,
            (Token::RParen, Token::RParen) => true,
            (Token::LSquare, Token::LSquare) => true,
            (Token::RSquare, Token::RSquare) => true,
            (Token::Bar, Token::Bar) => true,
            (Token::Comma, Token::Comma) => true,
            (Token::Colon, Token::Colon) => true,
            (Token::Semicolon, Token::Semicolon) => true,
            (Token::Fn, Token::Fn) => true,
            (Token::Return, Token::Return) => true,
            (Token::Add, Token::Add) => true,
            (Token::Sub, Token::Sub) => true,
            (Token::Mul, Token::Mul) => true,
            (Token::Div, Token::Div) => true,
            (Token::Not, Token::Not) => true,
            (Token::Eq, Token::Eq) => true,
            (Token::Ne, Token::Ne) => true,
            (Token::Lt, Token::Lt) => true,
            (Token::Le, Token::Le) => true,
            (Token::Gt, Token::Gt) => true,
            (Token::Ge, Token::Ge) => true,
            (Token::U32Value(a), Token::U32Value(b)) => a == b,
            (Token::BoolValue(a), Token::BoolValue(b)) => a == b,
            (Token::Identifier(a), Token::Identifier(b)) => a.eq(b),
            (Token::Unexpected(a), Token::Unexpected(b)) => a == b,
            _ => false,
        }
    }
}

impl vstd::std_specs::cmp::PartialEqSpecImpl for Token {
    open spec fn obeys_eq_spec() -> bool {
        true
    }

    open spec fn eq_spec(&self, other: &Token) -> bool {
        token_matches(*self, *other)
    }
}

/// Two tokens are the same, comparing identifier spellings by content.
pub open spec fn token_matches(a: Token, b: Token) -> bool {
    match (a, b) {
        (Token::U32Value(x), Token::U32Value(y)) => x == y,
        (Token::BoolValue(x), Token::BoolValue(y)) => x == y,
        (Token::Identifier(x), Token::Identifier(y)) => x@ == y@,
        (Token::Unexpected(x), Token::Unexpected(y)) => x == y,
        _ => is_same_variant(a, b),
    }
}

/// The two tokens carry the same tag.
pub open spec fn is_same_variant(a: Token, b: Token) -> bool {
    match (a, b) {
        (Token::U32Type, Token::U32Type) => true,
        (Token::BoolType, Token::BoolType) => true,
        (Token::Arrow, Token::Arrow) => true,
        (Token::Assign, Token::Assign) => true,
        (Token::LBrace, Token::LBrace) => true,
        (Token::RBrace, Token::RBrace) => true,
        (Token::LParen, Token::LParen) => true,
        (Token::RParen, Token::RParen) => true,
        (Token::LSquare, Token::LSquare) => true,
        (Token::RSquare, Token::RSquare) => true,
        (Token::Bar, Token::Bar) => true,
        (Token::Comma, Token::Comma) => true,
        (Token::Colon, Token::Colon) => true,
        (Token::Semicolon, Token::Semicolon) => true,
        (Token::Fn, Token::Fn) => true,
        (Token::Return, Token::Return) => true,
        (Token::Add, Token::Add) => true,
        (Token::Sub, Token::Sub) => true,
        (Token::Mul, Token::Mul) => true,
        (Token::Div, Token::Div) => true,
        (Token::Not, Token::Not) => true,
        (Token::Eq, Token::Eq) => true,
        (Token::Ne, Token::Ne) => true,
        (Token::Lt, Token::Lt) => true,
        (Token::Le, Token::Le) => true,
        (Token::Gt, Token::Gt) => true,
        (Token::Ge, Token::Ge) => true,
        (Token::U32Value(_), Token::U32Value(_)) => true,
        (Token::BoolValue(_), Token::BoolValue(_)) => true,
        (Token::Identifier(_), Token::Identifier(_)) => true,
        (Token::Unexpected(_), Token::Unexpected(_)) => true,
        _ => false,
    }
}

/// The scanner: the source as characters, the index of the current one,
/// and its line and column for diagnostics.
pub struct Lexer {
    src: Vec<char>,
    current: usize,
    line: usize,
    col: usize,
}

impl Lexer {
    /// The characters not yet consumed.
    pub closed spec fn remaining(&self) -> nat {
        if self.current <= self.src@.len() {
            (self.src@.len() - self.current) as nat
        } else {
            0
        }
    }

    pub fn new(source: &str) -> (r: Self) {
        let n = source.unicode_len();
        let mut src: Vec<char> = Vec::new();
        let mut i: usize = 0;
        while i < n
            invariant
                n == source@.len(),
            decreases n - i,
        {
            src.push(source.get_char(i));
            i = i + 1;
        }
        Lexer { src, current: 0, line: 1, col: 1 }
    }

    /// The next character, unconsumed.
    fn peek_char(&self) -> (r: Option<char>)
        ensures
            r is Some <==> self.current < self.src@.len(),
    {
        if self.current < self.src.len() {
            Some(self.src[self.current])
        } else {
            None
        }
    }

    /// The next character, consumed.
    fn next_char(&mut self) -> (r: Option<char>)
        ensures
            final(self).src == old(self).src,
            match r {
                Some(_) => old(self).current < old(self).src@.len() && final(self).current == old(self).current + 1,
                None => final(self).current == old(self).current && old(self).current >= old(self).src@.len(),
            },
    {
        if self.current < self.src.len() {
            let c = self.src[self.current];
            self.current = self.current + 1;
            self.col = if self.col < usize::MAX {
                self.col + 1
            } else {
                self.col
            };
            Some(c)
        } else {
            None
        }
    }

    /// Consume the next character exactly when it is the expected one.
    fn match_char(&mut self, expected: char) -> (r: bool)
        ensures
            final(self).src == old(self).src,
            r ==> old(self).current < old(self).src@.len() && final(self).current == old(self).current + 1,
            !r ==> final(self).current == old(self).current,
    {
        if self.current < self.src.len() {
            if self.src[self.current] == expected {
                self.current = self.current + 1;
                self.col = if self.col < usize::MAX {
                    self.col + 1
                } else {
                    self.col
                };
                return true;
            }
        }
        false
    }

    /// Consume the expected characters exactly when they all come next.
    fn match_str(&mut self, expected: &str) -> (r: bool)
        ensures
            final(self).src == old(self).src,
            r ==> final(self).current == old(self).current + expected@.len() && final(self).current <= final(self).src@.len(),
            !r ==> final(self).current == old(self).current,
    {
        let n = expected.unicode_len();
        let srclen = self.src.len();
        if n > srclen || self.current > srclen - n {
            return false;
        }
        let mut i: usize = 0;
        while i < n
            invariant
                n == expected@.len(),
                srclen == self.src@.len(),
                self.current + n <= srclen,
                i <= n,
            decreases n - i,
        {
            if self.src[self.current + i] != expected.get_char(i) {
                return false;
            }
            i = i + 1;
        }
        self.current = self.current + n;
        self.col = if self.col <= usize::MAX - n {
            self.col + n
        } else {
            self.col
        };
        true
    }

    /// Skip blanks, tabs, carriage returns, and newlines, counting lines.
    fn skip_whitespace(&mut self)
        ensures
            final(self).src == old(self).src,
            old(self).current <= final(self).current,
            final(self).current <= final(self).src@.len() || final(self).current == old(
                self,
            ).current,
    {
        loop
            invariant
                self.src == old(self).src,
                old(self).current <= self.current,
                self.current <= self.src@.len() || self.current == old(self).current,
            decreases self.remaining(),
        {
            let advance = match self.peek_char() {
                Some(c) => {
                    if c == ' ' || c == '\t' || c == '\r' {
                        1
                    } else if c == '\n' {
                        2
                    } else {
                        0
                    }
                },
                None => 0,
            };
            if advance == 0 {
                break;
            }
            let _ = self.next_char();
            if advance == 2 {
                self.line = if self.line < usize::MAX {
                    self.line + 1
                } else {
                    self.line
                };
                self.col = 1;
            }
        }
    }

    /// Scan the next token; `None` at the end of input.  A numeric literal
    /// too large for the value type comes back as `Unexpected`, as does any
    /// character outside the language.
    pub fn next_token(&mut self) -> (r: Option<(Token, Span)>)
        ensures
            match r {
                Some(_) => final(self).remaining() < old(self).remaining(),
                None => true,
            },
    {
        proof {
            reveal_strlit("u32");
            reveal_strlit("bool");
            reveal_strlit("true");
            reveal_strlit("false");
            reveal_strlit("fn");
            reveal_strlit("return");
        }
        self.skip_whitespace();
        let start_col = self.col;
        if self.match_str("u32") {
            return Some((Token::U32Type, Span::new(self.line, start_col, self.col)));
        }
        if self.match_str("bool") {
            return Some((Token::BoolType, Span::new(self.line, start_col, self.col)));
        }
        if self.match_str("true") {
            return Some((Token::BoolValue(true), Span::new(self.line, start_col, self.col)));
        }
        if self.match_str("false") {
            return Some((Token::BoolValue(false), Span::new(self.line, start_col, self.col)));
        }
        if self.match_str("fn") {
            return Some((Token::Fn, Span::new(self.line, start_col, self.col)));
        }
        if self.match_str("return") {
            return Some((Token::Return, Span::new(self.line, start_col, self.col)));
        }
        let c = match self.next_char() {
            Some(c) => c,
            None => {
                return None;
            },
        };
        let token = match c {
            '{' => Token::LBrace,
            '}' => Token::RBrace,
            '(' => Token::LParen,
            ')' => Token::RParen,
            '[' => Token::LSquare,
            ']' => Token::RSquare,
            '|' => Token::Bar,
            ',' => Token::Comma,
            ':' => Token::Colon,
            ';' => Token::Semicolon,
            '-' => {
                if self.match_char('>') {
                    Token::Arrow
                } else {
                    Token::Sub
                }
            },
            '+' => Token::Add,
            '*' => Token::Mul,
            '/' => Token::Div,
            '=' => {
                if self.match_char('=') {
                    Token::Eq
                } else {
                    Token::Assign
                }
            },
            '!' => {
                if self.match_char('=') {
                    Token::Ne
                } else {
                    Token::Not
                }
            },
            '<' => {
                if self.match_char('=') {
                    Token::Le
                } else {
                    Token::Lt
                }
            },
            '>' => {
                if self.match_char('=') {
                    Token::Ge
                } else {
                    Token::Gt
                }
            },
            _ => {
                if is_digit(c) {
                    self.scan_number(c)
                } else if is_alpha(c) {
                    self.scan_identifier(c)
                } else {
                    Token::Unexpected(c)
                }
            },
        };
        Some((token, Span::new(self.line, start_col, self.col)))
    }

    /// Scan the remaining digits of a numeric literal.
    fn scan_number(&mut self, first: char) -> (r: Token)
        requires
            '0' <= first && first <= '9',
        ensures
            final(self).src == old(self).src,
            old(self).current <= final(self).current,
            final(self).current <= final(self).src@.len() || final(self).current == old(
                self,
            ).current,
    {
        let mut value: u32 = first as u32 - 48;
        let mut overflowed = false;
        loop
            invariant
                self.src == old(self).src,
                old(self).current <= self.current,
                self.current <= self.src@.len() || self.current == old(self).current,
            decreases self.remaining(),
        {
            let d = match self.peek_char() {
                Some(c) => {
                    if is_digit(c) {
                        Some(c as u32 - 48)
                    } else {
                        None
                    }
                },
                None => None,
            };
            match d {
                Some(d) => {
                    if value > (u32::MAX - d) / 10 {
                        overflowed = true;
                    } else {
                        value = value * 10 + d;
                    }
                    let _ = self.next_char();
                },
                None => {
                    break;
                },
            }
        }
        if overflowed {
            Token::Unexpected(first)
        } else {
            Token::U32Value(value)
        }
    }

    /// Scan the remaining characters of an identifier or keyword stem.
    fn scan_identifier(&mut self, first: char) -> (r: Token)
        ensures
            final(self).src == old(self).src,
            old(self).current <= final(self).current,
            final(self).current <= final(self).src@.len() || final(self).current == old(
                self,
            ).current,
    {
        let mut name = String::new();
        name.append(char_str(first).as_str());
        loop
            invariant
                self.src == old(self).src,
                old(self).current <= self.current,
                self.current <= self.src@.len() || self.current == old(self).current,
            decreases self.remaining(),
        {
            let next = match self.peek_char() {
                Some(c) => {
                    if is_alnum(c) {
                        Some(c)
                    } else {
                        None
                    }
                },
                None => None,
            };
            match next {
                Some(c) => {
                    name.append(char_str(c).as_str());
                    let _ = self.next_char();
                },
                None => {
                    break;
                },
            }
        }
        Token::Identifier(name)
    }
}

/// Relies on String::push: appends exactly the one character.
#[verifier::external_body]
fn char_str(c: char) -> (r: String)
    ensures
        r@ == seq![c],
{
    let mut s = String::new();
    s.push(c);
    s
}

/// A decimal digit character.
fn is_digit(c: char) -> (r: bool)
    ensures
        r == ('0' <= c && c <= '9'),
{
    '0' <= c && c <= '9'
}

/// A basic letter, of either case.
fn is_alpha(c: char) -> (r: bool)
    ensures
        r == (('a' <= c && c <= 'z') || ('A' <= c && c <= 'Z')),
{
    ('a' <= c && c <= 'z') || ('A' <= c && c <= 'Z')
}

/// A basic letter or a decimal digit.
fn is_alnum(c: char) -> (r: bool)
    ensures
        r == (('a' <= c && c <= 'z') || ('A' <= c && c <= 'Z') || ('0' <= c && c <= '9')),
{
    ('a' <= c && c <= 'z') || ('A' <= c && c <= 'Z') || ('0' <= c && c <= '9')
}

} // verus!

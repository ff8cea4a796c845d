//! The Pratt parser: token stream to surface parse tree.
//!
//! Straight-line functions of typed arguments, assignment statements, a
//! return expression, binary expressions by precedence climbing, and
//! tensor comprehensions.  A body that ends without a return statement
//! parses to a function without a return expression; the SSA builder
//! reports that, per function.

use vstd::prelude::*;

use crate::ast::{BaseType, Bop, Shape, Type, Uop};
use super::lexer::{token_matches, Lexer, Token};
use super::operator::{precedes, Operator};
use super::parse_ast::{Expr, Fundef, IndexVector, Program, Stmt};
use super::span::Span;

verus! {

/// A parse failure.
#[derive(Debug)]
pub enum ParseError {
    /// Two non-associative operators in a row.
    NonAssociative,
    /// Something else stood where the named construct was expected.
    UnexpectedToken(String, Token, Span),
    /// The input ended in the middle of a construct.
    UnexpectedEof,
}

/// The parser: the scanned tokens and the position of the next one.
pub struct Parser {
    tokens: Vec<(Token, Span)>,
    pos: usize,
}

/// Copy a token (the spelling of an identifier is copied by content).
fn clone_token(t: &Token) -> (r: Token)
    ensures
        token_matches(r, *t),
{
    match t {
        Token::U32Type => Token::U32Type,
        Token::BoolType => Token::BoolType,
        Token::Arrow => Token::Arrow,
        Token::Assign => Token::Assign,
        Token::LBrace => Token::LBrace,
        Token::RBrace => Token::RBrace,
        Token::LParen => Token::LParen,
        Token::RParen => Token::RParen,
        Token::LSquare => Token::LSquare,
        Token::RSquare => Token::RSquare,
        Token::Bar => Token::Bar,
        Token::Comma => Token::Comma,
        Token::Colon => Token::Colon,
        Token::Semicolon => Token::Semicolon,
        Token::Fn => Token::Fn,
        Token::Return => Token::Return,
        Token::Add => Token::Add,
        Token::Sub => Token::Sub,
        Token::Mul => Token::Mul,
        Token::Div => Token::Div,
        Token::Not => Token::Not,
        Token::Eq => Token::Eq,
        Token::Ne => Token::Ne,
        Token::Lt => Token::Lt,
        Token::Le => Token::Le,
        Token::Gt => Token::Gt,
        Token::Ge => Token::Ge,
        Token::U32Value(v) => Token::U32Value(*v),
        Token::BoolValue(v) => Token::BoolValue(*v),
        Token::Identifier(x) => Token::Identifier(x.clone()),
        Token::Unexpected(c) => Token::Unexpected(*c),
    }
}

/// The binary operator a token spells in expression position, if any.
/// The comparison tokens stay out: they delimit a comprehension's bounds.
fn token_to_bop(t: &Token) -> (r: Option<Bop>) {
    match t {
        Token::Add => Some(Bop::Add),
        Token::Sub => Some(Bop::Sub),
        Token::Mul => Some(Bop::Mul),
        Token::Div => Some(Bop::Div),
        Token::Eq => Some(Bop::Eq),
        Token::Ne => Some(Bop::Ne),
        _ => None,
    }
}

/// The unary operator a token spells, if any.
fn token_to_uop(t: &Token) -> (r: Option<Uop>) {
    match t {
        Token::Sub => Some(Uop::Neg),
        Token::Not => Some(Uop::Not),
        _ => None,
    }
}

impl Parser {
    /// The position of the next token, and how many there are.
    pub closed spec fn pos_spec(&self) -> nat {
        self.pos as nat
    }

    pub closed spec fn len_spec(&self) -> nat {
        self.tokens@.len()
    }

    /// The parser is within its token stream.
    pub open spec fn wf(&self) -> bool {
        self.pos_spec() <= self.len_spec()
    }

    /// Scan the whole input up front and start before its first token.
    pub fn new(lexer: Lexer) -> (r: Self)
        ensures
            r.wf(),
    {
        let mut lexer = lexer;
        let mut tokens: Vec<(Token, Span)> = Vec::new();
        loop
            decreases lexer.remaining(),
        {
            match lexer.next_token() {
                Some(ts) => {
                    tokens.push(ts);
                },
                None => {
                    break;
                },
            }
        }
        Parser { tokens, pos: 0 }
    }

    /// The next token, unconsumed.
    fn peek(&self) -> (r: Result<&(Token, Span), ParseError>)
        requires
            self.wf(),
        ensures
            r is Ok <==> self.pos_spec() < self.len_spec(),
    {
        if self.pos < self.tokens.len() {
            Ok(&self.tokens[self.pos])
        } else {
            Err(ParseError::UnexpectedEof)
        }
    }

    /// The next token, consumed.
    fn next(&mut self) -> (r: Result<(Token, Span), ParseError>)
        requires
            old(self).wf(),
        ensures
            final(self).wf(),
            final(self).len_spec() == old(self).len_spec(),
            match r {
                Ok(_) => final(self).pos_spec() == old(self).pos_spec() + 1,
                Err(_) => final(self).pos_spec() == old(self).pos_spec(),
            },
    {
        if self.pos < self.tokens.len() {
            let t = clone_token(&self.tokens[self.pos].0);
            let sp = self.tokens[self.pos].1;
            self.pos = self.pos + 1;
            Ok((t, sp))
        } else {
            Err(ParseError::UnexpectedEof)
        }
    }

    /// Consume the next token exactly when it is the expected one.
    fn matches(&mut self, expected: &Token) -> (r: Option<(Token, Span)>)
        requires
            old(self).wf(),
        ensures
            final(self).wf(),
            final(self).len_spec() == old(self).len_spec(),
            match r {
                Some(_) => final(self).pos_spec() == old(self).pos_spec() + 1,
                None => final(self).pos_spec() == old(self).pos_spec(),
            },
    {
        if self.pos < self.tokens.len() {
            if self.tokens[self.pos].0.eq(expected) {
                let t = clone_token(&self.tokens[self.pos].0);
                let sp = self.tokens[self.pos].1;
                self.pos = self.pos + 1;
                return Some((t, sp));
            }
        }
        None
    }

    /// Consume the next token, which must be the expected one.
    fn expect(&mut self, expected: &Token, what: &str) -> (r: Result<(Token, Span), ParseError>)
        requires
            old(self).wf(),
        ensures
            final(self).wf(),
            final(self).len_spec() == old(self).len_spec(),
            match r {
                Ok(_) => final(self).pos_spec() == old(self).pos_spec() + 1,
                Err(_) => old(self).pos_spec() <= final(self).pos_spec() <= old(self).pos_spec()
                    + 1,
            },
    {
        let (t, sp) = match self.next() {
            Ok(p) => p,
            Err(e) => {
                return Err(e);
            },
        };
        if t.eq(expected) {
            Ok((t, sp))
        } else {
            Err(ParseError::UnexpectedToken(what.to_owned(), t, sp))
        }
    }

    /// Consume an identifier.
    fn parse_id(&mut self) -> (r: Result<(String, Span), ParseError>)
        requires
            old(self).wf(),
        ensures
            final(self).wf(),
            final(self).len_spec() == old(self).len_spec(),
            match r {
                Ok(_) => final(self).pos_spec() == old(self).pos_spec() + 1,
                Err(_) => old(self).pos_spec() <= final(self).pos_spec() <= old(self).pos_spec()
                    + 1,
            },
    {
        let (t, sp) = match self.next() {
            Ok(p) => p,
            Err(e) => {
                return Err(e);
            },
        };
        match t {
            Token::Identifier(x) => Ok((x, sp)),
            other => Err(ParseError::UnexpectedToken("identifier".to_owned(), other, sp)),
        }
    }

    /// `<type> := <basetype> | <basetype> "[" <id> "]"`
    fn parse_type(&mut self) -> (r: Result<(Type, Span), ParseError>)
        requires
            old(self).wf(),
        ensures
            final(self).wf(),
            final(self).len_spec() == old(self).len_spec(),
            old(self).pos_spec() <= final(self).pos_spec(),
            r is Ok ==> old(self).pos_spec() < final(self).pos_spec(),
    {
        let (t, sp) = match self.next() {
            Ok(p) => p,
            Err(e) => {
                return Err(e);
            },
        };
        let basetype = match t {
            Token::U32Type => BaseType::U32,
            Token::BoolType => BaseType::Bool,
            other => {
                return Err(ParseError::UnexpectedToken("type".to_owned(), other, sp));
            },
        };
        if self.matches(&Token::LSquare).is_some() {
            let _ = match self.parse_id() {
                Ok(p) => p,
                Err(e) => {
                    return Err(e);
                },
            };
            match self.expect(&Token::RSquare, "closing bracket") {
                Ok(_) => {},
                Err(e) => {
                    return Err(e);
                },
            }
            Ok((Type { basetype, shp: Shape::Vector(Box::new(Shape::Scalar)) }, sp))
        } else {
            Ok((Type { basetype, shp: Shape::Scalar }, sp))
        }
    }

    /// `<farg> := <type> <id>`
    fn parse_farg(&mut self) -> (r: Result<(Type, String), ParseError>)
        requires
            old(self).wf(),
        ensures
            final(self).wf(),
            final(self).len_spec() == old(self).len_spec(),
            old(self).pos_spec() <= final(self).pos_spec(),
            r is Ok ==> old(self).pos_spec() < final(self).pos_spec(),
    {
        let (ty, _) = match self.parse_type() {
            Ok(p) => p,
            Err(e) => {
                return Err(e);
            },
        };
        let (id, _) = match self.parse_id() {
            Ok(p) => p,
            Err(e) => {
                return Err(e);
            },
        };
        Ok((ty, id))
    }

    /// The next binary operator, consumed exactly when it binds after the
    /// previous one.
    fn parse_binary_operator<P: Operator>(&mut self, previous: &Option<P>) -> (r: Result<
        Option<(Bop, Span)>,
        ParseError,
    >)
        requires
            old(self).wf(),
        ensures
            final(self).wf(),
            final(self).len_spec() == old(self).len_spec(),
            match r {
                Ok(Some(_)) => final(self).pos_spec() == old(self).pos_spec() + 1,
                _ => final(self).pos_spec() == old(self).pos_spec(),
            },
    {
        let op = if self.pos < self.tokens.len() {
            token_to_bop(&self.tokens[self.pos].0)
        } else {
            None
        };
        match op {
            Some(op) => {
                let cont = match precedes(previous, &op) {
                    Ok(c) => c,
                    Err(e) => {
                        return Err(e);
                    },
                };
                if cont {
                    let sp = self.tokens[self.pos].1;
                    self.pos = self.pos + 1;
                    Ok(Some((op, sp)))
                } else {
                    Ok(None)
                }
            },
            None => Ok(None),
        }
    }

    /// `<expr> := <tensor> | <binary>`
    fn parse_expr<P: Operator>(&mut self, prev_op: Option<P>) -> (r: Result<Expr, ParseError>)
        requires
            old(self).wf(),
        ensures
            final(self).wf(),
            final(self).len_spec() == old(self).len_spec(),
            old(self).pos_spec() <= final(self).pos_spec(),
            r is Ok ==> old(self).pos_spec() < final(self).pos_spec(),
        decreases old(self).len_spec() - old(self).pos_spec(), 2nat,
    {
        let starts_tensor = if self.pos < self.tokens.len() {
            match self.tokens[self.pos].0 {
                Token::LBrace => true,
                _ => false,
            }
        } else {
            false
        };
        if starts_tensor {
            self.parse_tensor()
        } else {
            self.parse_binary(prev_op)
        }
    }

    /// `<tensor> := "{" <expr> "|" <expr> "<=" <id> "<" <expr> "}"`
    fn parse_tensor(&mut self) -> (r: Result<Expr, ParseError>)
        requires
            old(self).wf(),
        ensures
            final(self).wf(),
            final(self).len_spec() == old(self).len_spec(),
            old(self).pos_spec() <= final(self).pos_spec(),
            r is Ok ==> old(self).pos_spec() < final(self).pos_spec(),
        decreases old(self).len_spec() - old(self).pos_spec(), 1nat,
    {
        match self.expect(&Token::LBrace, "opening brace") {
            Ok(_) => {},
            Err(e) => {
                return Err(e);
            },
        }
        let body = match self.parse_expr(None::<Bop>) {
            Ok(e) => e,
            Err(e) => {
                return Err(e);
            },
        };
        match self.expect(&Token::Bar, "partition bar") {
            Ok(_) => {},
            Err(e) => {
                return Err(e);
            },
        }
        let lb = match self.parse_expr(None::<Bop>) {
            Ok(e) => e,
            Err(e) => {
                return Err(e);
            },
        };
        match self.expect(&Token::Le, "lower bound comparison") {
            Ok(_) => {},
            Err(e) => {
                return Err(e);
            },
        }
        let (iv, _) = match self.parse_id() {
            Ok(p) => p,
            Err(e) => {
                return Err(e);
            },
        };
        match self.expect(&Token::Lt, "upper bound comparison") {
            Ok(_) => {},
            Err(e) => {
                return Err(e);
            },
        }
        let ub = match self.parse_expr(None::<Bop>) {
            Ok(e) => e,
            Err(e) => {
                return Err(e);
            },
        };
        match self.expect(&Token::RBrace, "closing brace") {
            Ok(_) => {},
            Err(e) => {
                return Err(e);
            },
        }
        Ok(Expr::Tensor {
            iv: IndexVector(iv),
            expr: Box::new(body),
            lb: Box::new(lb),
            ub: Box::new(ub),
        })
    }

    /// `<binary> := <operand> (<bop> <expr>)*`, by precedence climbing.
    fn parse_binary<P: Operator>(&mut self, prev_op: Option<P>) -> (r: Result<Expr, ParseError>)
        requires
            old(self).wf(),
        ensures
            final(self).wf(),
            final(self).len_spec() == old(self).len_spec(),
            old(self).pos_spec() <= final(self).pos_spec(),
            r is Ok ==> old(self).pos_spec() < final(self).pos_spec(),
        decreases old(self).len_spec() - old(self).pos_spec(), 1nat,
    {
        let (t, sp) = match self.next() {
            Ok(p) => p,
            Err(e) => {
                return Err(e);
            },
        };
        let mut left = match t {
            Token::Identifier(x) => Expr::Identifier(x),
            Token::BoolValue(v) => Expr::Bool(v),
            Token::U32Value(v) => Expr::U32(v),
            Token::LParen => {
                let inner = match self.parse_expr(None::<Bop>) {
                    Ok(e) => e,
                    Err(e) => {
                        return Err(e);
                    },
                };
                match self.expect(&Token::RParen, "closing parenthesis") {
                    Ok(_) => {},
                    Err(e) => {
                        return Err(e);
                    },
                }
                inner
            },
            other => {
                match token_to_uop(&other) {
                    Some(op) => {
                        match self.parse_unary(op) {
                            Ok(e) => e,
                            Err(e) => {
                                return Err(e);
                            },
                        }
                    },
                    None => {
                        return Err(ParseError::UnexpectedToken(
                            "an operand or a prefix operator".to_owned(),
                            other,
                            sp,
                        ));
                    },
                }
            },
        };
        loop
            invariant
                self.wf(),
                self.len_spec() == old(self).len_spec(),
                old(self).pos_spec() < self.pos_spec(),
            decreases self.len_spec() - self.pos_spec(),
        {
            let got = match self.parse_binary_operator(&prev_op) {
                Ok(g) => g,
                Err(e) => {
                    return Err(e);
                },
            };
            match got {
                Some((op, _)) => {
                    let right = match self.parse_expr(Some(op)) {
                        Ok(e) => e,
                        Err(e) => {
                            return Err(e);
                        },
                    };
                    left = Expr::Binary { l: Box::new(left), r: Box::new(right), op };
                },
                None => {
                    break;
                },
            }
        }
        Ok(left)
    }

    /// `<unary> := <uop> <expr>`
    fn parse_unary(&mut self, op: Uop) -> (r: Result<Expr, ParseError>)
        requires
            old(self).wf(),
        ensures
            final(self).wf(),
            final(self).len_spec() == old(self).len_spec(),
            old(self).pos_spec() <= final(self).pos_spec(),
        decreases old(self).len_spec() - old(self).pos_spec(), 3nat,
    {
        let r = match self.parse_expr(Some(op)) {
            Ok(e) => e,
            Err(e) => {
                return Err(e);
            },
        };
        Ok(Expr::Unary { r: Box::new(r), op })
    }

    /// `<stmt> := <id> "=" <expr> ";"`
    fn parse_stmt(&mut self) -> (r: Result<Stmt, ParseError>)
        requires
            old(self).wf(),
        ensures
            final(self).wf(),
            final(self).len_spec() == old(self).len_spec(),
            old(self).pos_spec() <= final(self).pos_spec(),
            r is Ok ==> old(self).pos_spec() < final(self).pos_spec(),
    {
        let (t, sp) = match self.next() {
            Ok(p) => p,
            Err(e) => {
                return Err(e);
            },
        };
        let lhs = match t {
            Token::Identifier(x) => x,
            other => {
                return Err(ParseError::UnexpectedToken("statement".to_owned(), other, sp));
            },
        };
        match self.expect(&Token::Assign, "assignment") {
            Ok(_) => {},
            Err(e) => {
                return Err(e);
            },
        }
        let expr = match self.parse_expr(None::<Bop>) {
            Ok(e) => e,
            Err(e) => {
                return Err(e);
            },
        };
        match self.expect(&Token::Semicolon, "semicolon") {
            Ok(_) => {},
            Err(e) => {
                return Err(e);
            },
        }
        Ok(Stmt::Assign { lhs, expr })
    }

    /// `<return> := "return" <expr> ";"`
    fn parse_return(&mut self) -> (r: Result<Expr, ParseError>)
        requires
            old(self).wf(),
        ensures
            final(self).wf(),
            final(self).len_spec() == old(self).len_spec(),
            old(self).pos_spec() <= final(self).pos_spec(),
    {
        match self.expect(&Token::Return, "return") {
            Ok(_) => {},
            Err(e) => {
                return Err(e);
            },
        }
        let expr = match self.parse_expr(None::<Bop>) {
            Ok(e) => e,
            Err(e) => {
                return Err(e);
            },
        };
        match self.expect(&Token::Semicolon, "semicolon") {
            Ok(_) => {},
            Err(e) => {
                return Err(e);
            },
        }
        Ok(expr)
    }

    /// `<fundef> := "fn" <id> "(" [<farg> ("," <farg>)*]? ")" "->" <type>
    ///                  "{" <stmt>* [<return>]? "}"`
    fn parse_fundef(&mut self) -> (r: Result<Fundef, ParseError>)
        requires
            old(self).wf(),
        ensures
            final(self).wf(),
            final(self).len_spec() == old(self).len_spec(),
            old(self).pos_spec() <= final(self).pos_spec(),
            r is Ok ==> old(self).pos_spec() < final(self).pos_spec(),
    {
        match self.expect(&Token::Fn, "function definition") {
            Ok(_) => {},
            Err(e) => {
                return Err(e);
            },
        }
        let (id, _) = match self.parse_id() {
            Ok(p) => p,
            Err(e) => {
                return Err(e);
            },
        };
        match self.expect(&Token::LParen, "opening parenthesis") {
            Ok(_) => {},
            Err(e) => {
                return Err(e);
            },
        }
        let mut args: Vec<(Type, String)> = Vec::new();
        if self.matches(&Token::RParen).is_none() {
            let first = match self.parse_farg() {
                Ok(p) => p,
                Err(e) => {
                    return Err(e);
                },
            };
            args.push(first);
            loop
                invariant
                    self.wf(),
                    self.len_spec() == old(self).len_spec(),
                    old(self).pos_spec() < self.pos_spec(),
                decreases self.len_spec() - self.pos_spec(),
            {
                if self.matches(&Token::Comma).is_some() {
                    let next = match self.parse_farg() {
                        Ok(p) => p,
                        Err(e) => {
                            return Err(e);
                        },
                    };
                    args.push(next);
                } else {
                    break;
                }
            }
            match self.expect(&Token::RParen, "closing parenthesis") {
                Ok(_) => {},
                Err(e) => {
                    return Err(e);
                },
            }
        }
        match self.expect(&Token::Arrow, "arrow") {
            Ok(_) => {},
            Err(e) => {
                return Err(e);
            },
        }
        let (ret_type, _) = match self.parse_type() {
            Ok(p) => p,
            Err(e) => {
                return Err(e);
            },
        };
        match self.expect(&Token::LBrace, "opening brace") {
            Ok(_) => {},
            Err(e) => {
                return Err(e);
            },
        }
        let mut body: Vec<Stmt> = Vec::new();
        let mut ret_expr: Option<Expr> = None;
        loop
            invariant
                self.wf(),
                self.len_spec() == old(self).len_spec(),
                old(self).pos_spec() < self.pos_spec(),
            decreases self.len_spec() - self.pos_spec(),
        {
            let kind = match self.peek() {
                Ok(ts) => match ts.0 {
                    Token::RBrace => 0,
                    Token::Return => 1,
                    _ => 2,
                },
                Err(e) => {
                    return Err(e);
                },
            };
            if kind == 0 {
                // a body without a return parses; the SSA builder reports it
                break;
            } else if kind == 1 {
                let e = match self.parse_return() {
                    Ok(e) => e,
                    Err(e) => {
                        return Err(e);
                    },
                };
                ret_expr = Some(e);
                break;
            } else {
                let st = match self.parse_stmt() {
                    Ok(st) => st,
                    Err(e) => {
                        return Err(e);
                    },
                };
                body.push(st);
            }
        }
        match self.expect(&Token::RBrace, "closing brace") {
            Ok(_) => {},
            Err(e) => {
                return Err(e);
            },
        }
        Ok(Fundef { id, args, ret_type, body, ret_expr })
    }

    /// `<program> := <fundef>*`
    pub fn parse_program(&mut self) -> (r: Result<Program, ParseError>)
        requires
            old(self).wf(),
        ensures
            final(self).wf(),
    {
        let mut fundefs: Vec<Fundef> = Vec::new();
        loop
            invariant
                self.wf(),
                self.len_spec() == old(self).len_spec(),
            decreases self.len_spec() - self.pos_spec(),
        {
            if self.pos >= self.tokens.len() {
                break;
            }
            let f = match self.parse_fundef() {
                Ok(f) => f,
                Err(e) => {
                    return Err(e);
                },
            };
            fundefs.push(f);
        }
        Ok(Program { fundefs })
    }
}

} // verus!

//! Scanning and parsing: surface text to parse tree.

pub mod lexer;
pub mod operator;
pub mod parse_ast;
pub mod parser;
pub mod span;

use vstd::prelude::*;

use lexer::Lexer;
use parser::{ParseError, Parser};

verus! {

/// Scan and parse a whole source text; a failure comes back as a short
/// description of what was expected.
pub fn scanparse(src: &str) -> (r: Result<parse_ast::Program, String>) {
    let lexer = Lexer::new(src);
    let mut parser = Parser::new(lexer);
    match parser.parse_program() {
        Ok(p) => Ok(p),
        Err(e) => Err(parse_error_message(&e)),
    }
}

/// A short description of a parse failure.
pub fn parse_error_message(e: &ParseError) -> (r: String) {
    match e {
        ParseError::NonAssociative => "two non-associative operators in a row".to_owned(),
        ParseError::UnexpectedToken(what, _, _) => {
            let mut s = "expected ".to_owned();
            s.append(what.as_str());
            s
        },
        ParseError::UnexpectedEof => "unexpected end of input".to_owned(),
    }
}

} // verus!

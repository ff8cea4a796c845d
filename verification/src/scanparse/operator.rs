//! Operator precedence and associativity for Pratt parsing.

use vstd::prelude::*;

use crate::ast::{Bop, Uop};
use super::parser::ParseError;

verus! {

/// How an operator associates.
#[derive(Clone, Copy, Debug, PartialEq, Eq, Structural)]
pub enum Assoc {
    /// Left-to-right associative, like addition.
    LeftToRight,
    /// Right-to-left associative, like exponentiation.
    RightToLeft,
    /// Non-associative, like comparison.
    NonAssoc,
}

/// An operator with a binding strength and an associativity.
pub trait Operator: Sized {
    spec fn prec_spec(&self) -> nat;

    spec fn assoc_spec(&self) -> Assoc;

    fn precedence(&self) -> (r: usize)
        ensures
            r as nat == self.prec_spec(),
    ;

    fn associativity(&self) -> (r: Assoc)
        ensures
            r == self.assoc_spec(),
    ;
}

/// Whether parsing may continue with `r` after `l`: the first operator of
/// an expression always binds; two non-associative operators in a row are
/// an error; otherwise a strictly stronger right operator (or an equally
/// strong right-to-left one) continues the current operand.
pub fn precedes<L: Operator, R: Operator>(l: &Option<L>, r: &R) -> (out: Result<bool, ParseError>)
    ensures
        match *l {
            None => out == Ok::<bool, ParseError>(true),
            Some(lo) => match (lo.assoc_spec(), r.assoc_spec()) {
                (Assoc::NonAssoc, Assoc::NonAssoc) => out == Err::<bool, ParseError>(
                    ParseError::NonAssociative,
                ),
                (_, Assoc::RightToLeft) => out == Ok::<bool, ParseError>(
                    lo.prec_spec() <= r.prec_spec(),
                ),
                _ => out == Ok::<bool, ParseError>(lo.prec_spec() < r.prec_spec()),
            },
        },
{
    match l {
        Some(lo) => {
            match (lo.associativity(), r.associativity()) {
                (Assoc::NonAssoc, Assoc::NonAssoc) => Err(ParseError::NonAssociative),
                (_, Assoc::RightToLeft) => Ok(lo.precedence() <= r.precedence()),
                _ => Ok(lo.precedence() < r.precedence()),
            }
        },
        None => Ok(true),
    }
}

impl Operator for Bop {
    open spec fn prec_spec(&self) -> nat {
        match *self {
            Bop::Eq | Bop::Ne => 2,
            Bop::Lt | Bop::Le | Bop::Gt | Bop::Ge => 3,
            Bop::Add | Bop::Sub => 4,
            Bop::Mul | Bop::Div => 5,
        }
    }

    open spec fn assoc_spec(&self) -> Assoc {
        match *self {
            Bop::Add | Bop::Sub | Bop::Mul | Bop::Div => Assoc::LeftToRight,
            Bop::Eq | Bop::Ne | Bop::Lt | Bop::Le | Bop::Gt | Bop::Ge => Assoc::NonAssoc,
        }
    }

    fn precedence(&self) -> (r: usize) {
        match *self {
            Bop::Eq | Bop::Ne => 2,
            Bop::Lt | Bop::Le | Bop::Gt | Bop::Ge => 3,
            Bop::Add | Bop::Sub => 4,
            Bop::Mul | Bop::Div => 5,
        }
    }

    fn associativity(&self) -> (r: Assoc) {
        match *self {
            Bop::Add | Bop::Sub | Bop::Mul | Bop::Div => Assoc::LeftToRight,
            Bop::Eq | Bop::Ne | Bop::Lt | Bop::Le | Bop::Gt | Bop::Ge => Assoc::NonAssoc,
        }
    }
}

impl Operator for Uop {
    /// Unary operators always bind strongest.
    open spec fn prec_spec(&self) -> nat {
        256
    }

    open spec fn assoc_spec(&self) -> Assoc {
        Assoc::LeftToRight
    }

    fn precedence(&self) -> (r: usize) {
        256
    }

    fn associativity(&self) -> (r: Assoc) {
        Assoc::LeftToRight
    }
}

} // verus!

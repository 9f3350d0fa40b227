use vstd::prelude::*;

use crate::ast::literal::LiteralValue;
use crate::lexer::{self, TokenType};

pub mod environment;
pub mod expr;
pub mod fps;
pub mod literal;
pub mod statement;

verus! {

/// What can go wrong while scheduling or running a program.
#[derive(Debug, PartialEq)]
pub enum AstError {
    /// The name is already bound in the innermost scope.
    AlreadyDeclared(String),
    /// No scope binds the name.
    NotDeclared(String),
    DivisionByZero,
    InvalidOperator(TokenType),
    InvalidOperation(LiteralValue, String, LiteralValue),
    /// A range has no truth value.
    NotComparable,
    Unimplemented(TokenType, LiteralValue),
    /// An arithmetic result does not fit the number range.
    NumberOutOfRange,
    /// The token cannot stand for a literal value.
    LiteralValueCreate(TokenType),
    /// A string token that carries no text.
    UnwrapString(Option<lexer::LiteralValue>),
    /// A number token that carries no number.
    UnwrapNumber(Option<lexer::LiteralValue>),
    /// A reserved word that has no meaning yet.
    ReservedWord(String),
    /// A `for` bound that is not a range.
    InvalidLoopBound,
    /// Blocks nest deeper than the scope counter can record.
    ScopeOverflow,
    /// The timeline would run past the largest frame index.
    TimelineOverflow,
    /// A loop reached frame execution: the scheduler should have resolved it.
    LoopInFrame,
}

} // verus!

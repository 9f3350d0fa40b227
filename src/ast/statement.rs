use vstd::prelude::*;

use crate::ast::expr::Expr;
use crate::lexer::{self, Token};

verus! {

/// A statement of a program, as the parser builds it.
#[derive(Debug, PartialEq)]
pub enum Statement {
    /// `#` or `#n`: advance the timeline by the token's count of frames.
    Fps(Token),
    /// `##`: the end of the timeline.
    FpsEnd(Token),
    Comment(Token),
    ArithmeticExpr(Expr),
    Print(Expr),
    Declaration { id: Token, expr: Expr },
    Block { statements: Vec<Statement> },
    If { condition: Expr, then_block: Vec<Statement>, else_block: Option<Vec<Statement>> },
    For { expr: Expr, for_block: Vec<Statement> },
    While { condition: Expr, while_block: Vec<Statement> },
}

/// The number of frames that a marker token advances: the count it
/// carries, or none when it carries no count.
pub open spec fn marker_duration(t: Token) -> nat {
    match t.literal {
        Some(lexer::LiteralValue::Fps(n)) => n as nat,
        _ => 0,
    }
}

pub fn token_duration(t: &Token) -> (r: usize)
    ensures
        r == marker_duration(*t),
{
    match &t.literal {
        Some(lexer::LiteralValue::Fps(n)) => *n,
        _ => 0,
    }
}

impl Statement {
    /// Whether the statement is scheduled as it stands: anything but a
    /// marker, a comment or a loop.
    pub open spec fn is_plain(self) -> bool {
        match self {
            Statement::ArithmeticExpr(_) | Statement::Print(_) | Statement::Declaration { .. }
            | Statement::Block { .. } | Statement::If { .. } | Statement::While { .. } => true,
            _ => false,
        }
    }
}

} // verus!

use vstd::prelude::*;

use crate::ast::expr::Expr;
use crate::ast::literal::{token_value, LiteralValue};
use crate::ast::statement::Statement;
use crate::ast::AstError;
use crate::lexer::{keyword, keyword_type, Token, TokenType};
use crate::text::push_str_chars;

verus! {

/// What can go wrong while parsing a token stream.
#[derive(Debug, PartialEq)]
pub enum ParserError {
    /// An expected token was missing; the message says which.
    Consume(String),
    /// No expression starts at this token: its text and line.
    ExpectedExpression(String, usize),
    /// The program does not end with `##`.
    ExpectedFpsEnd,
    /// A `let` statement that could not be parsed, and why.
    Declaration(Box<ParserError>),
    InvalidAssignment,
    /// A literal token that stands for no value.
    Literal(AstError),
    /// Every error met while parsing, in order.
    MultipleErrors(Vec<ParserError>),
}

/// A token stream that the parser can walk: it ends with an end-of-input
/// token.
pub open spec fn well_ended(t: Seq<Token>) -> bool {
    t.len() >= 1 && t.last().token_type == TokenType::Eof
}

pub open spec fn remaining(t: Seq<Token>, pos: int) -> int {
    t.len() - pos
}

fn consume_error(msg: &str) -> (r: ParserError) {
    ParserError::Consume(msg.to_string())
}

fn peek_type(tokens: &Vec<Token>, pos: usize) -> (r: TokenType)
    requires
        pos < tokens@.len(),
    ensures
        r == tokens@[pos as int].token_type,
{
    tokens[pos].token_type
}

fn at_end(tokens: &Vec<Token>, pos: usize) -> (r: bool)
    requires
        pos < tokens@.len(),
    ensures
        r == (tokens@[pos as int].token_type == TokenType::Eof),
{
    tokens[pos].token_type == TokenType::Eof
}

/// Steps past the token at `pos` unless it ends the input.
fn advance(tokens: &Vec<Token>, pos: usize) -> (r: usize)
    requires
        well_ended(tokens@),
        pos < tokens@.len(),
    ensures
        r < tokens@.len(),
        tokens@[pos as int].token_type == TokenType::Eof ==> r == pos,
        tokens@[pos as int].token_type != TokenType::Eof ==> r == pos + 1,
{
    if at_end(tokens, pos) {
        pos
    } else {
        let n = tokens.len();
        assert(pos != n - 1);
        pos + 1
    }
}

/// Steps past the token at `pos` when it has kind `tt`.
fn match_token(tokens: &Vec<Token>, pos: usize, tt: TokenType) -> (r: (bool, usize))
    requires
        well_ended(tokens@),
        pos < tokens@.len(),
    ensures
        r.1 < tokens@.len(),
        r.0 == is_tok(tokens@, pos as int, tt),
        r.0 ==> r.1 == pos + 1,
        !r.0 ==> r.1 == pos,
{
    if !at_end(tokens, pos) && peek_type(tokens, pos) == tt {
        let n = tokens.len();
        assert(pos != n - 1);
        (true, pos + 1)
    } else {
        (false, pos)
    }
}

/// Steps past the token at `pos` when its kind is one of `tts`.
fn match_tokens(tokens: &Vec<Token>, pos: usize, tts: &[TokenType]) -> (r: (bool, usize))
    requires
        well_ended(tokens@),
        pos < tokens@.len(),
    ensures
        r.1 < tokens@.len(),
        r.0 == matches_any(tokens@, pos as int, tts@),
        r.0 ==> r.1 == pos + 1,
        !r.0 ==> r.1 == pos,
{
    let mut i: usize = 0;
    while i < tts.len()
        invariant
            i <= tts@.len(),
            well_ended(tokens@),
            pos < tokens@.len(),
            forall|j: int| 0 <= j < i ==> !(tokens@[pos as int].token_type != TokenType::Eof
                && tts@[j] == tokens@[pos as int].token_type),
        decreases tts@.len() - i,
    {
        let tt = tts[i];
        assert(tt == tts@[i as int]);
        let (hit, next) = match_token(tokens, pos, tt);
        if hit {
            assert(tts@[i as int] == tokens@[pos as int].token_type);
            assert(tts@.contains(tokens@[pos as int].token_type));
            return (true, next);
        }
        i = i + 1;
    }
    assert(!matches_any(tokens@, pos as int, tts@));
    (false, pos)
}

/// Steps past a token of kind `tt`, or fails with `msg`.
fn consume(tokens: &Vec<Token>, pos: usize, tt: TokenType, msg: &str) -> (r: Result<usize, ParserError>)
    requires
        well_ended(tokens@),
        pos < tokens@.len(),
    ensures
        r is Ok == is_tok(tokens@, pos as int, tt),
        r matches Ok(p) ==> p == pos + 1 && p < tokens@.len() && tokens@[pos as int].token_type == tt,
{
    let (hit, next) = match_token(tokens, pos, tt);
    if hit {
        Ok(next)
    } else {
        Err(consume_error(msg))
    }
}

/// Whether the token at `pos` is one of `ops` (the end of input never is).
pub open spec fn matches_any(t: Seq<Token>, pos: int, ops: Seq<TokenType>) -> bool {
    &&& 0 <= pos < t.len()
    &&& t[pos].token_type != TokenType::Eof
    &&& ops.contains(t[pos].token_type)
}

/// Whether the token at `pos` has kind `tt` (the end of input never does).
pub open spec fn is_tok(t: Seq<Token>, pos: int, tt: TokenType) -> bool {
    &&& 0 <= pos < t.len()
    &&& t[pos].token_type != TokenType::Eof
    &&& t[pos].token_type == tt
}

/// The operators of each binary precedence level, loosest last: factor,
/// term, comparison, equality, `&&`, `||`.
pub open spec fn level_ops(level: int) -> Seq<TokenType> {
    if level == 3 {
        seq![TokenType::Slash, TokenType::Star]
    } else if level == 4 {
        seq![TokenType::Minus, TokenType::Plus]
    } else if level == 5 {
        seq![TokenType::Greater, TokenType::GreaterEqual, TokenType::Less, TokenType::LessEqual]
    } else if level == 6 {
        seq![TokenType::BangEqual, TokenType::EqualEqual]
    } else if level == 7 {
        seq![TokenType::And]
    } else {
        seq![TokenType::Or]
    }
}

/// The node for `left op right` at a binary level: logical for `&&` and
/// `||`, arithmetic or comparison below.
pub open spec fn combine(level: int, left: Expr, op: Token, right: Expr) -> Expr {
    if level >= 7 {
        Expr::Logical { left: Box::new(left), operator: op, right: Box::new(right) }
    } else {
        Expr::Binary { left: Box::new(left), operator: op, right: Box::new(right) }
    }
}

/// The expression grammar. Level 1 is a primary expression, 2 a unary
/// one, 3 to 8 the binary levels (left-associative), 9 an assignment
/// (right-associative). The result is the expression, or `None` on a
/// syntax error, and the position where parsing stopped.
pub open spec fn g_expr(t: Seq<Token>, pos: int, level: int) -> (Option<Expr>, int)
    decreases t.len() - pos, 2 * level + 1,
{
    if !(0 <= pos < t.len()) || level < 1 || level > 9 {
        (None, pos)
    } else if level == 1 {
        let tok = t[pos];
        let next = if tok.token_type == TokenType::Eof {
            pos
        } else {
            pos + 1
        };
        match tok.token_type {
            TokenType::Number | TokenType::StringLiteral | TokenType::True | TokenType::False | TokenType::Null
            | TokenType::Range | TokenType::RangeEqual => match token_value(tok) {
                Ok(value) => (Some(Expr::Literal { value }), next),
                Err(_) => (None, next),
            },
            TokenType::OpenParen => {
                let (inner, after) = g_expr(t, pos + 1, 9);
                match inner {
                    None => (None, after),
                    Some(e) => if is_tok(t, after, TokenType::CloseParen) {
                        (Some(Expr::Grouping { expr: Box::new(e) }), after + 1)
                    } else {
                        (None, after)
                    },
                }
            },
            TokenType::Identifer => (Some(Expr::Variable { id: tok }), next),
            TokenType::Fps => match token_value(tok) {
                Ok(value) => (Some(Expr::Literal { value }), pos),
                Err(_) => (None, pos),
            },
            TokenType::FpsEnd => (Some(Expr::Literal { value: LiteralValue::Null }), pos),
            TokenType::Comment => (Some(Expr::Ignore { token: tok }), pos),
            TokenType::It => (Some(Expr::ReservedLiteral { value: tok.lexeme }), next),
            _ => (None, pos),
        }
    } else if level == 2 {
        if matches_any(t, pos, seq![TokenType::Bang, TokenType::Minus]) {
            let (rhs, after) = g_expr(t, pos + 1, 2);
            match rhs {
                Some(e) => (Some(Expr::Unary { operator: t[pos], right: Box::new(e) }), after),
                None => (None, after),
            }
        } else {
            g_expr(t, pos, 1)
        }
    } else if level == 9 {
        let (first, p) = g_expr(t, pos, 8);
        match first {
            None => (None, p),
            Some(e) => if p >= pos && is_tok(t, p, TokenType::Equal) {
                let (v, after) = g_expr(t, p + 1, 9);
                match v {
                    None => (None, after),
                    Some(val) => match e {
                        Expr::Variable { id } => (Some(Expr::Assign { id, value: Box::new(val) }), after),
                        _ => (None, after),
                    },
                }
            } else {
                (Some(e), p)
            },
        }
    } else {
        let (first, p) = g_expr(t, pos, level - 1);
        match first {
            None => (None, p),
            Some(e) => if pos <= p <= t.len() {
                g_tail(t, p, level, e)
            } else {
                (None, p)
            },
        }
    }
}

/// The rest of a binary level after its left operand `left`, read from `p`.
pub open spec fn g_tail(t: Seq<Token>, p: int, level: int, left: Expr) -> (Option<Expr>, int)
    decreases t.len() - p, 2 * level,
{
    if 3 <= level <= 8 && matches_any(t, p, level_ops(level)) {
        let (rhs, after) = g_expr(t, p + 1, level - 1);
        match rhs {
            None => (None, after),
            Some(r) => if p < after <= t.len() {
                g_tail(t, after, level, combine(level, left, t[p], r))
            } else {
                (None, after)
            },
        }
    } else {
        (Some(left), p)
    }
}

/// Whether an exec parse result is what the grammar gives.
pub open spec fn agrees<T>(r: (Result<T, ParserError>, usize), g: (Option<T>, int)) -> bool {
    &&& r.1 == g.1
    &&& (r.0 is Ok <==> g.0 is Some)
    &&& (r.0 matches Ok(e) ==> g.0 == Some(e))
}

/// Steps past a token of a binary level's operators.
fn match_level(tokens: &Vec<Token>, pos: usize, level: u8) -> (r: (bool, usize))
    requires
        well_ended(tokens@),
        pos < tokens@.len(),
        3 <= level <= 8,
    ensures
        r.1 < tokens@.len(),
        r.0 == matches_any(tokens@, pos as int, level_ops(level as int)),
        r.0 ==> r.1 == pos + 1,
        !r.0 ==> r.1 == pos,
{
    let ops: &[TokenType] = if level == 3 {
        &[TokenType::Slash, TokenType::Star]
    } else if level == 4 {
        &[TokenType::Minus, TokenType::Plus]
    } else if level == 5 {
        &[TokenType::Greater, TokenType::GreaterEqual, TokenType::Less, TokenType::LessEqual]
    } else if level == 6 {
        &[TokenType::BangEqual, TokenType::EqualEqual]
    } else if level == 7 {
        &[TokenType::And]
    } else {
        &[TokenType::Or]
    };
    assert(ops@ =~= level_ops(level as int));
    match_tokens(tokens, pos, ops)
}

fn primary(tokens: &Vec<Token>, pos: usize) -> (r: (Result<Expr, ParserError>, usize))
    requires
        well_ended(tokens@),
        pos < tokens@.len(),
    ensures
        pos <= r.1 < tokens@.len(),
        agrees(r, g_expr(tokens@, pos as int, 1)),
    decreases remaining(tokens@, pos as int), 3nat,
{
    let tt = peek_type(tokens, pos);
    match tt {
        TokenType::Number | TokenType::StringLiteral | TokenType::True | TokenType::False
        | TokenType::Null | TokenType::Range | TokenType::RangeEqual => {
            let next = advance(tokens, pos);
            match LiteralValue::from_token(tokens[pos].clone()) {
                Ok(value) => (Ok(Expr::Literal { value }), next),
                Err(e) => (Err(ParserError::Literal(e)), next),
            }
        },
        TokenType::OpenParen => {
            let next = advance(tokens, pos);
            let (inner, after) = assignment(tokens, next);
            match inner {
                Err(e) => (Err(e), after),
                Ok(expr) => {
                    let (hit, q) = match_token(tokens, after, TokenType::CloseParen);
                    if hit {
                        (Ok(Expr::Grouping { expr: Box::new(expr) }), q)
                    } else {
                        (Err(consume_error("Expected ')' after expression.")), after)
                    }
                },
            }
        },
        TokenType::Identifer => (Ok(Expr::Variable { id: tokens[pos].clone() }), advance(tokens, pos)),
        TokenType::Fps => match LiteralValue::from_token(tokens[pos].clone()) {
            Ok(value) => (Ok(Expr::Literal { value }), pos),
            Err(e) => (Err(ParserError::Literal(e)), pos),
        },
        TokenType::FpsEnd => (Ok(Expr::Literal { value: LiteralValue::Null }), pos),
        TokenType::Comment => (Ok(Expr::Ignore { token: tokens[pos].clone() }), pos),
        TokenType::It => (Ok(Expr::ReservedLiteral { value: tokens[pos].lexeme.clone() }), advance(tokens, pos)),
        _ => (Err(ParserError::ExpectedExpression(tokens[pos].lexeme.clone(), tokens[pos].line)), pos),
    }
}

fn unary(tokens: &Vec<Token>, pos: usize) -> (r: (Result<Expr, ParserError>, usize))
    requires
        well_ended(tokens@),
        pos < tokens@.len(),
    ensures
        pos <= r.1 < tokens@.len(),
        agrees(r, g_expr(tokens@, pos as int, 2)),
    decreases remaining(tokens@, pos as int), 5nat,
{
    let ops: &[TokenType] = &[TokenType::Bang, TokenType::Minus];
    assert(ops@ =~= seq![TokenType::Bang, TokenType::Minus]);
    let (hit, next) = match_tokens(tokens, pos, ops);
    if hit {
        let operator = tokens[pos].clone();
        let (rhs, after) = unary(tokens, next);
        match rhs {
            Ok(right) => (Ok(Expr::Unary { operator, right: Box::new(right) }), after),
            Err(e) => (Err(e), after),
        }
    } else {
        primary(tokens, pos)
    }
}

/// One binary precedence level (3 to 8, see `level_ops`): operands of the
/// next tighter level joined left to right.
fn binary_level(tokens: &Vec<Token>, pos: usize, level: u8) -> (r: (Result<Expr, ParserError>, usize))
    requires
        well_ended(tokens@),
        pos < tokens@.len(),
        3 <= level <= 8,
    ensures
        pos <= r.1 < tokens@.len(),
        agrees(r, g_expr(tokens@, pos as int, level as int)),
    decreases remaining(tokens@, pos as int), 2 * level + 1,
{
    let (first, mut p) = if level == 3 {
        unary(tokens, pos)
    } else {
        binary_level(tokens, pos, level - 1)
    };
    let mut expr = match first {
        Ok(e) => e,
        Err(e) => return (Err(e), p),
    };
    assert(g_expr(tokens@, pos as int, level as int) == g_tail(tokens@, p as int, level as int, expr));
    loop
        invariant
            well_ended(tokens@),
            3 <= level <= 8,
            pos <= p < tokens@.len(),
            g_expr(tokens@, pos as int, level as int) == g_tail(tokens@, p as int, level as int, expr),
        decreases tokens@.len() - p,
    {
        let (hit, next) = match_level(tokens, p, level);
        if !hit {
            return (Ok(expr), p);
        }
        let operator = tokens[p].clone();
        let (rhs, after) = if level == 3 {
            unary(tokens, next)
        } else {
            binary_level(tokens, next, level - 1)
        };
        match rhs {
            Ok(right) => {
                let ghost joined = combine(level as int, expr, operator, right);
                expr = if level >= 7 {
                    Expr::Logical { left: Box::new(expr), operator, right: Box::new(right) }
                } else {
                    Expr::Binary { left: Box::new(expr), operator, right: Box::new(right) }
                };
                assert(expr == joined);
                p = after;
            },
            Err(e) => return (Err(e), after),
        }
    }
}

/// An assignment `name = value` (right-associative), or any lower
/// expression.
fn assignment(tokens: &Vec<Token>, pos: usize) -> (r: (Result<Expr, ParserError>, usize))
    requires
        well_ended(tokens@),
        pos < tokens@.len(),
    ensures
        pos <= r.1 < tokens@.len(),
        agrees(r, g_expr(tokens@, pos as int, 9)),
    decreases remaining(tokens@, pos as int), 19nat,
{
    let (first, p) = binary_level(tokens, pos, 8);
    let expr = match first {
        Ok(e) => e,
        Err(e) => return (Err(e), p),
    };
    let (hit, next) = match_token(tokens, p, TokenType::Equal);
    if !hit {
        return (Ok(expr), p);
    }
    let (value, after) = assignment(tokens, next);
    match value {
        Err(e) => (Err(e), after),
        Ok(v) => match expr {
            Expr::Variable { id } => (Ok(Expr::Assign { id, value: Box::new(v) }), after),
            _ => (Err(ParserError::InvalidAssignment), after),
        },
    }
}

/// A statement as the grammar describes it; `stmt_is` ties it to a parsed
/// `Statement`.
pub ghost enum StmtG {
    Fps(Token),
    FpsEnd(Token),
    Comment(Token),
    Expression(Expr),
    Print(Expr),
    Declaration(Token, Expr),
    Block(Seq<StmtG>),
    If(Expr, Seq<StmtG>, Option<Seq<StmtG>>),
    For(Expr, Seq<StmtG>),
}

pub open spec fn stmt_is(s: Statement, g: StmtG) -> bool
    decreases s, 0nat,
{
    match (s, g) {
        (Statement::Fps(a), StmtG::Fps(b)) => a == b,
        (Statement::FpsEnd(a), StmtG::FpsEnd(b)) => a == b,
        (Statement::Comment(a), StmtG::Comment(b)) => a == b,
        (Statement::ArithmeticExpr(a), StmtG::Expression(b)) => a == b,
        (Statement::Print(a), StmtG::Print(b)) => a == b,
        (Statement::Declaration { id, expr }, StmtG::Declaration(i, e)) => id == i && expr == e,
        (Statement::Block { statements }, StmtG::Block(gs)) => stmts_are(statements@, gs),
        (Statement::If { condition, then_block, else_block }, StmtG::If(c, ts, es)) => {
            &&& condition == c
            &&& stmts_are(then_block@, ts)
            &&& match (else_block, es) {
                (None, None) => true,
                (Some(b), Some(gb)) => stmts_are(b@, gb),
                _ => false,
            }
        },
        (Statement::For { expr, for_block }, StmtG::For(e, bs)) => expr == e && stmts_are(for_block@, bs),
        _ => false,
    }
}

pub open spec fn stmts_are(ss: Seq<Statement>, gs: Seq<StmtG>) -> bool
    decreases ss, 1nat,
{
    if ss.len() == 0 {
        gs.len() == 0
    } else {
        gs.len() == ss.len() && stmts_are(ss.drop_last(), gs.drop_last()) && stmt_is(ss.last(), gs.last())
    }
}

/// The position after the token at `pos`, unless it ends the input.
pub open spec fn adv(t: Seq<Token>, pos: int) -> int {
    if t[pos].token_type == TokenType::Eof {
        pos
    } else {
        pos + 1
    }
}

/// Where recovery after an error resumes: from `p` on, just past a `;` or
/// at a keyword, or at the end of input.
pub open spec fn sync_from(t: Seq<Token>, p: int) -> int
    decreases t.len() - p,
{
    if !(1 <= p < t.len()) || t[p].token_type == TokenType::Eof {
        p
    } else if t[p - 1].token_type == TokenType::Semicolon || keyword(t[p].lexeme@) is Some {
        p
    } else {
        sync_from(t, p + 1)
    }
}

pub open spec fn g_sync(t: Seq<Token>, pos: int) -> int {
    sync_from(t, adv(t, pos))
}

pub open spec fn prepend<T>(done: Seq<T>, r: (Option<Seq<T>>, int)) -> (Option<Seq<T>>, int) {
    (
        match r.0 {
            Some(rest) => Some(done + rest),
            None => None,
        },
        r.1,
    )
}

/// The statement grammar; results are as in `g_expr`.
pub open spec fn g_decl(t: Seq<Token>, pos: int) -> (Option<StmtG>, int)
    decreases t.len() - pos, 24nat,
{
    if !(0 <= pos < t.len()) {
        (None, pos)
    } else if is_tok(t, pos, TokenType::Declaration) {
        let (r, p) = g_decl_stmt(t, pos + 1);
        match r {
            Some(s) => (Some(s), p),
            None => if pos + 1 <= p < t.len() {
                (None, g_sync(t, p))
            } else {
                (None, p)
            },
        }
    } else {
        g_stmt(t, pos)
    }
}

/// `name = expr;` or `name;`, after `let`.
pub open spec fn g_decl_stmt(t: Seq<Token>, pos: int) -> (Option<StmtG>, int)
    decreases t.len() - pos, 22nat,
{
    if !is_tok(t, pos, TokenType::Identifer) {
        (None, pos)
    } else {
        let id = t[pos];
        let p = pos + 1;
        let (init, q) = if is_tok(t, p, TokenType::Equal) {
            g_expr(t, p + 1, 9)
        } else {
            (Some(Expr::Literal { value: LiteralValue::Null }), p)
        };
        match init {
            None => (None, q),
            Some(e) => if is_tok(t, q, TokenType::Semicolon) {
                (Some(StmtG::Declaration(id, e)), q + 1)
            } else {
                (None, q)
            },
        }
    }
}

pub open spec fn g_stmt(t: Seq<Token>, pos: int) -> (Option<StmtG>, int)
    decreases t.len() - pos, 23nat,
{
    if !(0 <= pos < t.len()) {
        (None, pos)
    } else {
        match t[pos].token_type {
            TokenType::Comment => (Some(StmtG::Comment(t[pos])), pos + 1),
            TokenType::Fps => (Some(StmtG::Fps(t[pos])), pos + 1),
            TokenType::FpsEnd => (Some(StmtG::FpsEnd(t[pos])), pos + 1),
            TokenType::Print => g_print(t, pos),
            TokenType::OpenBrace => g_block(t, pos),
            TokenType::If => g_if(t, pos),
            TokenType::For => g_for(t, pos),
            _ => g_expr_stmt(t, pos),
        }
    }
}

/// `print(expr, ...);` at the `print` keyword: the first argument is printed.
pub open spec fn g_print(t: Seq<Token>, pos: int) -> (Option<StmtG>, int)
    decreases t.len() - pos, 22nat,
{
    let p = pos + 1;
    if !(0 <= pos < t.len()) {
        (None, pos)
    } else if !is_tok(t, p, TokenType::OpenParen) {
        (None, p)
    } else {
        match g_args_from(t, p + 1) {
            (None, q) => (None, q),
            (Some(args), q) => if is_tok(t, q, TokenType::Semicolon) && args.len() >= 1 {
                (Some(StmtG::Print(args[0])), q + 1)
            } else {
                (None, q)
            },
        }
    }
}

/// Expressions from `p` up to a closing `)`, which is consumed.
pub open spec fn g_args_from(t: Seq<Token>, p: int) -> (Option<Seq<Expr>>, int)
    decreases t.len() - p, 22nat,
{
    if !(0 <= p < t.len()) {
        (None, p)
    } else {
        let (r, next) = g_expr(t, p, 9);
        match r {
            None => (None, next),
            Some(e) => if !(p <= next < t.len()) || t[next].token_type == TokenType::Eof {
                (None, next)
            } else if t[next].token_type == TokenType::CloseParen {
                (Some(seq![e]), next + 1)
            } else if next == p {
                (None, p)
            } else {
                prepend(seq![e], g_args_from(t, next))
            },
        }
    }
}

/// Declarations from `p` up to a closing `}`, which is consumed.
pub open spec fn g_list_from(t: Seq<Token>, p: int) -> (Option<Seq<StmtG>>, int)
    decreases t.len() - p, 25nat,
{
    if !(0 <= p < t.len()) {
        (None, p)
    } else if t[p].token_type == TokenType::CloseBrace || t[p].token_type == TokenType::Eof {
        if is_tok(t, p, TokenType::CloseBrace) {
            (Some(Seq::empty()), p + 1)
        } else {
            (None, p)
        }
    } else {
        let (r, next) = g_decl(t, p);
        match r {
            None => (None, next),
            Some(s) => if p < next <= t.len() {
                prepend(seq![s], g_list_from(t, next))
            } else {
                (None, next)
            },
        }
    }
}

/// `{ ... }` at the opening brace.
pub open spec fn g_block(t: Seq<Token>, pos: int) -> (Option<StmtG>, int)
    decreases t.len() - pos, 22nat,
{
    if !(0 <= pos < t.len()) {
        (None, pos)
    } else {
        match g_list_from(t, pos + 1) {
            (Some(gs), q) => (Some(StmtG::Block(gs)), q),
            (None, q) => (None, q),
        }
    }
}

/// `if cond { ... } else { ... }` at the `if` keyword.
pub open spec fn g_if(t: Seq<Token>, pos: int) -> (Option<StmtG>, int)
    decreases t.len() - pos, 22nat,
{
    let p = pos + 1;
    let (c, p2) = g_expr(t, p, 9);
    if !(0 <= pos < t.len()) {
        (None, pos)
    } else {
        match c {
            None => (None, p2),
            Some(cond) => if !is_tok(t, p2, TokenType::OpenBrace) || p2 < p {
                (None, p2)
            } else {
                match g_list_from(t, p2 + 1) {
                    (None, p3) => (None, p3),
                    (Some(th), p3) => if is_tok(t, p3, TokenType::Else) && p3 > p2 {
                        if !is_tok(t, p3 + 1, TokenType::OpenBrace) {
                            (None, p3 + 1)
                        } else {
                            match g_list_from(t, p3 + 2) {
                                (None, p4) => (None, p4),
                                (Some(el), p4) => (Some(StmtG::If(cond, th, Some(el))), p4),
                            }
                        }
                    } else {
                        (Some(StmtG::If(cond, th, None)), p3)
                    },
                }
            },
        }
    }
}

/// `for range { ... }` at the `for` keyword.
pub open spec fn g_for(t: Seq<Token>, pos: int) -> (Option<StmtG>, int)
    decreases t.len() - pos, 22nat,
{
    let p = pos + 1;
    if !(0 <= pos < t.len() && p < t.len()) {
        (None, pos)
    } else if t[p].token_type != TokenType::Range && t[p].token_type != TokenType::RangeEqual {
        (None, p)
    } else {
        let (b, p2) = g_expr(t, p, 9);
        match b {
            None => (None, p2),
            Some(bound) => if !is_tok(t, p2, TokenType::OpenBrace) || p2 < p {
                (None, p2)
            } else {
                match g_list_from(t, p2 + 1) {
                    (None, p3) => (None, p3),
                    (Some(body), p3) => (Some(StmtG::For(bound, body)), p3),
                }
            },
        }
    }
}

/// `expr;`
pub open spec fn g_expr_stmt(t: Seq<Token>, pos: int) -> (Option<StmtG>, int)
    decreases t.len() - pos, 22nat,
{
    let (r, p) = g_expr(t, pos, 9);
    match r {
        None => (None, p),
        Some(e) => if is_tok(t, p, TokenType::Semicolon) {
            (Some(StmtG::Expression(e)), p + 1)
        } else {
            (None, p)
        },
    }
}

/// A whole program from `p`: the statements that parsed, whether any
/// error was met, and where parsing stopped.
pub open spec fn g_program(t: Seq<Token>, p: int) -> (Seq<StmtG>, bool, int)
    decreases t.len() - p,
{
    if !(0 <= p < t.len()) || t[p].token_type == TokenType::Eof {
        (Seq::empty(), false, p)
    } else {
        let (r, next) = g_decl(t, p);
        match r {
            Some(s) => if p < next < t.len() {
                let (rest, err, e) = g_program(t, next);
                (seq![s] + rest, err, e)
            } else {
                (Seq::empty(), true, p)
            },
            None => {
                let q = if p <= next < t.len() {
                    g_sync(t, next)
                } else {
                    p
                };
                let q2 = if q == p {
                    p + 1
                } else {
                    q
                };
                if p < q2 < t.len() {
                    let (rest, _, e) = g_program(t, q2);
                    (rest, true, e)
                } else {
                    (Seq::empty(), true, p)
                }
            },
        }
    }
}

/// Whether an exec statement parse is what the grammar gives.
pub open spec fn agrees_stmt(r: (Result<Statement, ParserError>, usize), g: (Option<StmtG>, int)) -> bool {
    &&& r.1 == g.1
    &&& (r.0 is Ok <==> g.0 is Some)
    &&& (r.0 matches Ok(s) ==> stmt_is(s, g.0->0))
}

pub open spec fn agrees_list(r: (Result<Vec<Statement>, ParserError>, usize), g: (Option<Seq<StmtG>>, int)) -> bool {
    &&& r.1 == g.1
    &&& (r.0 is Ok <==> g.0 is Some)
    &&& (r.0 matches Ok(v) ==> stmts_are(v@, g.0->0))
}

/// Whether the token's text is a keyword.
fn is_keyword_token(t: &Token) -> (r: bool)
    ensures
        r == keyword(t.lexeme@) is Some,
{
    let mut chars: Vec<char> = Vec::new();
    push_str_chars(&mut chars, t.lexeme.as_str());
    keyword_type(&chars).is_some()
}

/// Skips tokens after an error, up to just past a `;` or up to a keyword.
fn synchronize(tokens: &Vec<Token>, pos: usize) -> (r: usize)
    requires
        well_ended(tokens@),
        pos < tokens@.len(),
    ensures
        pos <= r < tokens@.len(),
        tokens@[pos as int].token_type != TokenType::Eof ==> r > pos,
        r == g_sync(tokens@, pos as int),
{
    let mut p = advance(tokens, pos);
    while !at_end(tokens, p)
        invariant
            well_ended(tokens@),
            pos <= p < tokens@.len(),
            tokens@[pos as int].token_type != TokenType::Eof ==> p > pos,
            g_sync(tokens@, pos as int) == sync_from(tokens@, p as int),
            p >= 1 || tokens@[p as int].token_type == TokenType::Eof,
        decreases tokens@.len() - p,
    {
        if peek_type(tokens, p - 1) == TokenType::Semicolon {
            return p;
        }
        if is_keyword_token(&tokens[p]) {
            return p;
        }
        p = advance(tokens, p);
    }
    p
}

/// Declarations and statements up to a closing `}`, which is consumed.
fn statements_until_close_brace(tokens: &Vec<Token>, pos: usize, msg: &str) -> (r: (Result<Vec<Statement>, ParserError>, usize))
    requires
        well_ended(tokens@),
        pos < tokens@.len(),
    ensures
        pos <= r.1 < tokens@.len(),
        r.0 is Ok ==> r.1 > pos,
        agrees_list(r, g_list_from(tokens@, pos as int)),
    decreases remaining(tokens@, pos as int), 25nat,
{
    let mut statements: Vec<Statement> = Vec::new();
    let mut p = pos;
    let ghost full = g_list_from(tokens@, pos as int);
    let ghost mut done: Seq<StmtG> = Seq::empty();
    while peek_type(tokens, p) != TokenType::CloseBrace && !at_end(tokens, p)
        invariant
            well_ended(tokens@),
            pos <= p < tokens@.len(),
            full == g_list_from(tokens@, pos as int),
            full == prepend(done, g_list_from(tokens@, p as int)),
            stmts_are(statements@, done),
        decreases tokens@.len() - p,
    {
        let (r, next) = declaration(tokens, p);
        match r {
            Ok(st) => {
                let ghost g = g_decl(tokens@, p as int).0->0;
                let ghost before = statements@;
                let ghost old_done = done;
                statements.push(st);
                proof {
                    done = done.push(g);
                    assert(statements@.drop_last() =~= before);
                    assert(done.drop_last() =~= old_done);
                    let rest = g_list_from(tokens@, next as int);
                    if rest.0 is Some {
                        assert(old_done + (seq![g] + rest.0->0) =~= done + rest.0->0);
                    }
                }
                p = next;
            },
            Err(e) => return (Err(e), next),
        }
    }
    proof {
        assert(done + Seq::<StmtG>::empty() =~= done);
    }
    match consume(tokens, p, TokenType::CloseBrace, msg) {
        Ok(q) => (Ok(statements), q),
        Err(e) => (Err(e), p),
    }
}

/// Arguments up to a closing `)`, which is consumed; at least one.
fn eval_until(tokens: &Vec<Token>, pos: usize) -> (r: (Result<Vec<Expr>, ParserError>, usize))
    requires
        well_ended(tokens@),
        pos < tokens@.len(),
    ensures
        pos <= r.1 < tokens@.len(),
        r.0 matches Ok(v) ==> v@.len() >= 1,
        r.1 == g_args_from(tokens@, pos as int).1,
        r.0 is Ok <==> g_args_from(tokens@, pos as int).0 is Some,
        r.0 matches Ok(v) ==> g_args_from(tokens@, pos as int).0 == Some(v@),
    decreases remaining(tokens@, pos as int), 22nat,
{
    let mut consumed: Vec<Expr> = Vec::new();
    let mut p = pos;
    let ghost full = g_args_from(tokens@, pos as int);
    loop
        invariant
            well_ended(tokens@),
            pos <= p < tokens@.len(),
            full == g_args_from(tokens@, pos as int),
            full == prepend(consumed@, g_args_from(tokens@, p as int)),
        decreases tokens@.len() - p,
    {
        let ghost before = consumed@;
        let (r, next) = assignment(tokens, p);
        let e = match r {
            Ok(e) => e,
            Err(e) => return (Err(e), next),
        };
        consumed.push(e);
        if at_end(tokens, next) {
            return (Err(consume_error("Expected a closing token")), next);
        }
        if peek_type(tokens, next) == TokenType::CloseParen {
            let q = advance(tokens, next);
            assert(before + seq![e] =~= consumed@);
            return (Ok(consumed), q);
        }
        if next == p {
            return (Err(ParserError::ExpectedExpression(tokens[p].lexeme.clone(), tokens[p].line)), p);
        }
        proof {
            let rest = g_args_from(tokens@, next as int);
            if rest.0 is Some {
                assert(before + (seq![e] + rest.0->0) =~= consumed@ + rest.0->0);
            }
        }
        p = next;
    }
}

/// `print(expr);`, starting at the `print` keyword.
fn print_statement(tokens: &Vec<Token>, pos: usize) -> (r: (Result<Statement, ParserError>, usize))
    requires
        well_ended(tokens@),
        pos < tokens@.len(),
        tokens@[pos as int].token_type != TokenType::Eof,
    ensures
        pos < r.1 < tokens@.len(),
        agrees_stmt(r, g_print(tokens@, pos as int)),
    decreases remaining(tokens@, pos as int), 22nat,
{
    let p = advance(tokens, pos);
    let p = match consume(tokens, p, TokenType::OpenParen, "Expected '('") {
        Ok(q) => q,
        Err(e) => return (Err(e), p),
    };
    let (args, p) = eval_until(tokens, p);
    let mut args = match args {
        Ok(a) => a,
        Err(e) => return (Err(e), p),
    };
    match consume(tokens, p, TokenType::Semicolon, "Expected ';' after statement") {
        Ok(q) => (Ok(Statement::Print(args.remove(0))), q),
        Err(e) => (Err(e), p),
    }
}

/// `{ ... }`, starting at the opening brace.
fn block_statement(tokens: &Vec<Token>, pos: usize) -> (r: (Result<Statement, ParserError>, usize))
    requires
        well_ended(tokens@),
        pos < tokens@.len(),
        tokens@[pos as int].token_type != TokenType::Eof,
    ensures
        pos < r.1 < tokens@.len(),
        agrees_stmt(r, g_block(tokens@, pos as int)),
    decreases remaining(tokens@, pos as int), 22nat,
{
    let p = advance(tokens, pos);
    let (r, q) = statements_until_close_brace(tokens, p, "Expected '}' after block");
    match r {
        Ok(statements) => (Ok(Statement::Block { statements }), q),
        Err(e) => (Err(e), q),
    }
}

/// `if cond { ... } else { ... }`, starting at the `if` keyword.
fn if_statement(tokens: &Vec<Token>, pos: usize) -> (r: (Result<Statement, ParserError>, usize))
    requires
        well_ended(tokens@),
        pos < tokens@.len(),
        tokens@[pos as int].token_type != TokenType::Eof,
    ensures
        pos < r.1 < tokens@.len(),
        agrees_stmt(r, g_if(tokens@, pos as int)),
    decreases remaining(tokens@, pos as int), 22nat,
{
    let p = advance(tokens, pos);
    let (cond, p) = assignment(tokens, p);
    let condition = match cond {
        Ok(c) => c,
        Err(e) => return (Err(e), p),
    };
    let p = match consume(tokens, p, TokenType::OpenBrace, "Expected '{' after if condition") {
        Ok(q) => q,
        Err(e) => return (Err(e), p),
    };
    let (then_r, p) = statements_until_close_brace(tokens, p, "Expected '}' after if then block");
    let then_block = match then_r {
        Ok(b) => b,
        Err(e) => return (Err(e), p),
    };
    let (has_else, p) = match_token(tokens, p, TokenType::Else);
    if !has_else {
        return (Ok(Statement::If { condition, then_block, else_block: None }), p);
    }
    let p = match consume(tokens, p, TokenType::OpenBrace, "Expected '{' after else keyword") {
        Ok(q) => q,
        Err(e) => return (Err(e), p),
    };
    let (else_r, p) = statements_until_close_brace(tokens, p, "Expected '}' after else block");
    match else_r {
        Ok(b) => (Ok(Statement::If { condition, then_block, else_block: Some(b) }), p),
        Err(e) => (Err(e), p),
    }
}

/// `for range { ... }`, starting at the `for` keyword.
fn for_statement(tokens: &Vec<Token>, pos: usize) -> (r: (Result<Statement, ParserError>, usize))
    requires
        well_ended(tokens@),
        pos < tokens@.len(),
        tokens@[pos as int].token_type != TokenType::Eof,
    ensures
        pos < r.1 < tokens@.len(),
        agrees_stmt(r, g_for(tokens@, pos as int)),
    decreases remaining(tokens@, pos as int), 22nat,
{
    let p = advance(tokens, pos);
    let next = peek_type(tokens, p);
    if next != TokenType::Range && next != TokenType::RangeEqual {
        return (Err(consume_error("Expected a Range/RangeEqual after for")), p);
    }
    let (bound, p) = assignment(tokens, p);
    let expr = match bound {
        Ok(b) => b,
        Err(e) => return (Err(e), p),
    };
    let p = match consume(tokens, p, TokenType::OpenBrace, "Expected '{' after for range") {
        Ok(q) => q,
        Err(e) => return (Err(e), p),
    };
    let (body, p) = statements_until_close_brace(tokens, p, "Expected '}' after for block");
    match body {
        Ok(for_block) => (Ok(Statement::For { expr, for_block }), p),
        Err(e) => (Err(e), p),
    }
}

/// `expr;`
fn expression_statement(tokens: &Vec<Token>, pos: usize) -> (r: (Result<Statement, ParserError>, usize))
    requires
        well_ended(tokens@),
        pos < tokens@.len(),
    ensures
        pos <= r.1 < tokens@.len(),
        r.0 is Ok ==> r.1 > pos,
        agrees_stmt(r, g_expr_stmt(tokens@, pos as int)),
    decreases remaining(tokens@, pos as int), 22nat,
{
    let (r, p) = assignment(tokens, pos);
    let expr = match r {
        Ok(e) => e,
        Err(e) => return (Err(e), p),
    };
    match consume(tokens, p, TokenType::Semicolon, "Expected ';' after statement") {
        Ok(q) => (Ok(Statement::ArithmeticExpr(expr)), q),
        Err(e) => (Err(e), p),
    }
}

/// `name = expr;` or `name;`, after the `let` keyword.
fn declaration_statement(tokens: &Vec<Token>, pos: usize) -> (r: (Result<Statement, ParserError>, usize))
    requires
        well_ended(tokens@),
        pos < tokens@.len(),
    ensures
        pos <= r.1 < tokens@.len(),
        r.0 is Ok ==> r.1 > pos,
        agrees_stmt(r, g_decl_stmt(tokens@, pos as int)),
    decreases remaining(tokens@, pos as int), 22nat,
{
    let p = match consume(tokens, pos, TokenType::Identifer, "Expected variable name") {
        Ok(q) => q,
        Err(e) => return (Err(e), pos),
    };
    let id = tokens[pos].clone();
    let (has_init, p) = match_token(tokens, p, TokenType::Equal);
    let (expr, p) = if has_init {
        let (r, q) = assignment(tokens, p);
        match r {
            Ok(e) => (e, q),
            Err(e) => return (Err(e), q),
        }
    } else {
        (Expr::Literal { value: LiteralValue::Null }, p)
    };
    match consume(tokens, p, TokenType::Semicolon, "Expected ';' after declaration") {
        Ok(q) => (Ok(Statement::Declaration { id, expr }), q),
        Err(e) => (Err(e), p),
    }
}

fn statement(tokens: &Vec<Token>, pos: usize) -> (r: (Result<Statement, ParserError>, usize))
    requires
        well_ended(tokens@),
        pos < tokens@.len(),
    ensures
        pos <= r.1 < tokens@.len(),
        r.0 is Ok ==> r.1 > pos,
        agrees_stmt(r, g_stmt(tokens@, pos as int)),
    decreases remaining(tokens@, pos as int), 23nat,
{
    match peek_type(tokens, pos) {
        TokenType::Comment => (Ok(Statement::Comment(tokens[pos].clone())), advance(tokens, pos)),
        TokenType::Fps => (Ok(Statement::Fps(tokens[pos].clone())), advance(tokens, pos)),
        TokenType::FpsEnd => (Ok(Statement::FpsEnd(tokens[pos].clone())), advance(tokens, pos)),
        TokenType::Print => print_statement(tokens, pos),
        TokenType::OpenBrace => block_statement(tokens, pos),
        TokenType::If => if_statement(tokens, pos),
        TokenType::For => for_statement(tokens, pos),
        _ => expression_statement(tokens, pos),
    }
}

fn declaration(tokens: &Vec<Token>, pos: usize) -> (r: (Result<Statement, ParserError>, usize))
    requires
        well_ended(tokens@),
        pos < tokens@.len(),
    ensures
        pos <= r.1 < tokens@.len(),
        r.0 is Ok ==> r.1 > pos,
        agrees_stmt(r, g_decl(tokens@, pos as int)),
    decreases remaining(tokens@, pos as int), 24nat,
{
    let (hit, next) = match_token(tokens, pos, TokenType::Declaration);
    if hit {
        let (r, p) = declaration_statement(tokens, next);
        match r {
            Ok(s) => (Ok(s), p),
            Err(e) => {
                let q = synchronize(tokens, p);
                (Err(ParserError::Declaration(Box::new(e))), q)
            },
        }
    } else {
        statement(tokens, pos)
    }
}

/// The recursive-descent parser over a scanned token stream.
pub struct Parser {
    tokens: Vec<Token>,
    current: usize,
}

impl Parser {
    pub closed spec fn wf(&self) -> bool {
        well_ended(self.tokens@) && self.current < self.tokens@.len()
    }

    pub closed spec fn token_seq(&self) -> Seq<Token> {
        self.tokens@
    }

    pub closed spec fn cursor(&self) -> int {
        self.current as int
    }

    /// A parser at the first token; an end-of-input token is added when the
    /// stream lacks one at its end.
    pub fn new(tokens: Vec<Token>) -> (r: Parser)
        ensures
            r.wf(),
            r.cursor() == 0,
            well_ended(tokens@) ==> r.token_seq() == tokens@,
    {
        let mut tokens = tokens;
        let n = tokens.len();
        if n == 0 || tokens[n - 1].token_type != TokenType::Eof {
            let (line, pos) = if n == 0 {
                (1, 0)
            } else {
                (tokens[n - 1].line, tokens[n - 1].pos)
            };
            tokens.push(Token::new(TokenType::Eof, String::new(), None, line, pos));
        }
        Parser { tokens, current: 0 }
    }

    /// Parses one expression at the current token, by the expression
    /// grammar `g_expr`, and moves past it.
    pub fn expression(&mut self) -> (r: Result<Expr, ParserError>)
        requires
            old(self).wf(),
        ensures
            final(self).wf(),
            final(self).token_seq() == old(self).token_seq(),
            agrees((r, final(self).cursor() as usize), g_expr(old(self).token_seq(), old(self).cursor(), 9)),
    {
        let (r, p) = assignment(&self.tokens, self.current);
        self.current = p;
        r
    }

    /// Parses the whole stream into statements, by the program grammar
    /// `g_program`. Errors do not stop the parse: it skips ahead and goes
    /// on, and reports them all at the end. A program must end with `##`.
    pub fn parse(&mut self) -> (r: Result<Vec<Statement>, ParserError>)
        requires
            old(self).wf(),
        ensures
            final(self).wf(),
            final(self).token_seq() == old(self).token_seq(),
            ({
                let (gs, err, e) = g_program(old(self).token_seq(), old(self).cursor());
                &&& final(self).cursor() == e
                &&& (r is Ok <==> !err && e >= 1 && old(self).token_seq()[e - 1].token_type == TokenType::FpsEnd)
                &&& (r matches Ok(v) ==> stmts_are(v@, gs))
                &&& (r matches Err(ParserError::ExpectedFpsEnd) <==> !(e >= 1
                    && old(self).token_seq()[e - 1].token_type == TokenType::FpsEnd))
            }),
    {
        let mut statements: Vec<Statement> = Vec::new();
        let mut errors: Vec<ParserError> = Vec::new();
        let mut p = self.current;
        let ghost t = self.tokens@;
        let ghost full = g_program(t, p as int);
        let ghost mut done: Seq<StmtG> = Seq::empty();
        let ghost mut had_err = false;
        while !at_end(&self.tokens, p)
            invariant
                well_ended(self.tokens@),
                t == self.tokens@,
                p < self.tokens@.len(),
                stmts_are(statements@, done),
                had_err == (errors@.len() > 0),
                full == (done + g_program(t, p as int).0, had_err || g_program(t, p as int).1, g_program(t, p as int).2),
            decreases self.tokens@.len() - p,
        {
            let (r, next) = declaration(&self.tokens, p);
            match r {
                Ok(s) => {
                    let ghost g = g_decl(t, p as int).0->0;
                    let ghost before = statements@;
                    let ghost old_done = done;
                    statements.push(s);
                    proof {
                        done = done.push(g);
                        assert(statements@.drop_last() =~= before);
                        assert(done.drop_last() =~= old_done);
                        assert(old_done + (seq![g] + g_program(t, next as int).0) =~= done + g_program(t, next as int).0);
                    }
                    p = next;
                },
                Err(e) => {
                    errors.push(e);
                    let q = synchronize(&self.tokens, next);
                    if q == p {
                        p = advance(&self.tokens, p);
                    } else {
                        p = q;
                    }
                    proof {
                        had_err = true;
                    }
                },
            }
        }
        proof {
            assert(done + Seq::<StmtG>::empty() =~= done);
        }
        self.current = p;
        if p == 0 || peek_type(&self.tokens, p - 1) != TokenType::FpsEnd {
            return Err(ParserError::ExpectedFpsEnd);
        }
        if errors.len() > 0 {
            return Err(ParserError::MultipleErrors(errors));
        }
        Ok(statements)
    }
}

} // verus!

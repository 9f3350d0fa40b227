use vstd::prelude::*;

use crate::ast::AstError;
use crate::lexer::{self, Token, TokenType};
use crate::number::{number_text, Number};
use crate::text::{nat_text, push_nat_text, push_str_chars, seq_lt, str_less};

verus! {

/// A runtime value of the language.
#[derive(Debug, PartialEq)]
pub enum LiteralValue {
    Number(Number),
    StringValue(String),
    Boolean(bool),
    /// A half-open range `start..end`.
    Range((usize, usize)),
    /// An inclusive range `start..=end`.
    RangeEqual((usize, usize)),
    Null,
}

impl Clone for LiteralValue {
    fn clone(&self) -> (r: Self)
        ensures
            r == *self,
    {
        match self {
            LiteralValue::Number(n) => LiteralValue::Number(*n),
            LiteralValue::StringValue(s) => LiteralValue::StringValue(s.clone()),
            LiteralValue::Boolean(b) => LiteralValue::Boolean(*b),
            LiteralValue::Range(r) => LiteralValue::Range(*r),
            LiteralValue::RangeEqual(r) => LiteralValue::RangeEqual(*r),
            LiteralValue::Null => LiteralValue::Null,
        }
    }
}

/// The truth value of a value: a number is true unless zero, a string
/// unless empty, null never; a range has none.
pub open spec fn truth(v: LiteralValue) -> Result<bool, AstError> {
    match v {
        LiteralValue::Number(n) => Ok(n.units != 0),
        LiteralValue::StringValue(s) => Ok(s@.len() > 0),
        LiteralValue::Boolean(b) => Ok(b),
        LiteralValue::Null => Ok(false),
        LiteralValue::Range(_) | LiteralValue::RangeEqual(_) => Err(AstError::NotComparable),
    }
}

pub open spec fn arith(r: Option<Number>) -> Result<LiteralValue, AstError> {
    match r {
        Some(n) => Ok(LiteralValue::Number(n)),
        None => Err(AstError::NumberOutOfRange),
    }
}

pub open spec fn tdiv_units(a: Number, b: Number) -> Option<Number> {
    let q = crate::number::tdiv(a.units * crate::number::SCALE, b.units as int);
    if crate::number::fits_i64(q) {
        Some(Number { units: q as i64 })
    } else {
        None
    }
}

pub open spec fn add_units(a: Number, b: Number) -> Option<Number> {
    if crate::number::fits_i64(a.units + b.units) {
        Some(Number { units: (a.units + b.units) as i64 })
    } else {
        None
    }
}

pub open spec fn sub_units(a: Number, b: Number) -> Option<Number> {
    if crate::number::fits_i64(a.units - b.units) {
        Some(Number { units: (a.units - b.units) as i64 })
    } else {
        None
    }
}

pub open spec fn mul_units(a: Number, b: Number) -> Option<Number> {
    let p = crate::number::tdiv(a.units * b.units, crate::number::SCALE as int);
    if crate::number::fits_i64(p) {
        Some(Number { units: p as i64 })
    } else {
        None
    }
}

/// Result of a comparison operator on an ordered pair, given `lt` (left
/// before right), `gt` (right before left) and `eq`.
pub open spec fn compare_result(op: TokenType, lt: bool, gt: bool, eq: bool) -> Result<LiteralValue, AstError> {
    match op {
        TokenType::Greater => Ok(LiteralValue::Boolean(gt)),
        TokenType::GreaterEqual => Ok(LiteralValue::Boolean(gt || eq)),
        TokenType::Less => Ok(LiteralValue::Boolean(lt)),
        TokenType::LessEqual => Ok(LiteralValue::Boolean(lt || eq)),
        TokenType::BangEqual => Ok(LiteralValue::Boolean(!eq)),
        TokenType::EqualEqual => Ok(LiteralValue::Boolean(eq)),
        _ => Err(AstError::InvalidOperator(op)),
    }
}

/// The binary operator table: numbers take arithmetic and comparison,
/// strings comparison, booleans equality; any other pair of kinds fails.
pub open spec fn binary_result(op: TokenType, lexeme: String, l: LiteralValue, r: LiteralValue) -> Result<LiteralValue, AstError> {
    match (l, r) {
        (LiteralValue::Number(a), LiteralValue::Number(b)) => match op {
            TokenType::Plus => arith(add_units(a, b)),
            TokenType::Minus => arith(sub_units(a, b)),
            TokenType::Star => arith(mul_units(a, b)),
            TokenType::Slash => if b.units == 0 {
                Err(AstError::DivisionByZero)
            } else {
                arith(tdiv_units(a, b))
            },
            _ => compare_result(op, a.units < b.units, a.units > b.units, a.units == b.units),
        },
        (LiteralValue::StringValue(a), LiteralValue::StringValue(b)) => compare_result(
            op,
            seq_lt(a@, b@),
            seq_lt(b@, a@),
            a@ == b@,
        ),
        (LiteralValue::Boolean(a), LiteralValue::Boolean(b)) => match op {
            TokenType::BangEqual => Ok(LiteralValue::Boolean(a != b)),
            TokenType::EqualEqual => Ok(LiteralValue::Boolean(a == b)),
            _ => Err(AstError::InvalidOperator(op)),
        },
        (l, r) => Err(AstError::InvalidOperation(l, lexeme, r)),
    }
}

pub open spec fn bool_text(b: bool) -> Seq<char> {
    if b {
        seq!['t', 'r', 'u', 'e']
    } else {
        seq!['f', 'a', 'l', 's', 'e']
    }
}

pub open spec fn pair_text(p: (usize, usize)) -> Seq<char> {
    seq!['('] + nat_text(p.0 as nat) + seq![',', ' '] + nat_text(p.1 as nat) + seq![')']
}

/// The printed form of a value.
pub open spec fn value_text(v: LiteralValue) -> Seq<char> {
    match v {
        LiteralValue::Number(n) => number_text(n),
        LiteralValue::StringValue(s) => s@,
        LiteralValue::Boolean(b) => bool_text(b),
        LiteralValue::Range(p) => pair_text(p),
        LiteralValue::RangeEqual(p) => pair_text(p),
        LiteralValue::Null => seq!['N', 'u', 'l', 'l'],
    }
}

/// What a token stands for as a literal value, if anything.
pub open spec fn token_value(t: Token) -> Result<LiteralValue, AstError> {
    match t.token_type {
        TokenType::StringLiteral => match string_of(t.literal) {
            Ok(s) => Ok(LiteralValue::StringValue(s)),
            Err(e) => Err(e),
        },
        TokenType::Number => match number_of(t.literal) {
            Ok(n) => Ok(LiteralValue::Number(n)),
            Err(e) => Err(e),
        },
        TokenType::True => Ok(LiteralValue::Boolean(true)),
        TokenType::False => Ok(LiteralValue::Boolean(false)),
        TokenType::Range => match t.literal {
            Some(lexer::LiteralValue::Bounds(a, b)) => Ok(LiteralValue::Range((a, b))),
            _ => Err(AstError::LiteralValueCreate(t.token_type)),
        },
        TokenType::RangeEqual => match t.literal {
            Some(lexer::LiteralValue::Bounds(a, b)) => Ok(LiteralValue::RangeEqual((a, b))),
            _ => Err(AstError::LiteralValueCreate(t.token_type)),
        },
        _ => Err(AstError::LiteralValueCreate(t.token_type)),
    }
}

/// The text that a string or identifier token carries.
pub open spec fn string_of(l: Option<lexer::LiteralValue>) -> Result<String, AstError> {
    match l {
        Some(lexer::LiteralValue::StringValue(s)) => Ok(s),
        Some(lexer::LiteralValue::Identifier(s)) => Ok(s),
        _ => Err(AstError::UnwrapString(l)),
    }
}

/// The number that a number token carries.
pub open spec fn number_of(l: Option<lexer::LiteralValue>) -> Result<Number, AstError> {
    match l {
        Some(lexer::LiteralValue::Number(n)) => Ok(n),
        _ => Err(AstError::UnwrapNumber(l)),
    }
}

/// The text that a string or identifier token carries.
pub fn unwrap_as_string(literal: Option<lexer::LiteralValue>) -> (r: Result<String, AstError>)
    ensures
        r == string_of(literal),
{
    match literal {
        Some(lexer::LiteralValue::StringValue(s)) => Ok(s),
        Some(lexer::LiteralValue::Identifier(s)) => Ok(s),
        other => Err(AstError::UnwrapString(other)),
    }
}

/// The number that a number token carries.
pub fn unwrap_as_number(literal: Option<lexer::LiteralValue>) -> (r: Result<Number, AstError>)
    ensures
        r == number_of(literal),
{
    match literal {
        Some(lexer::LiteralValue::Number(n)) => Ok(n),
        other => Err(AstError::UnwrapNumber(other)),
    }
}

fn compare(op: TokenType, lt: bool, gt: bool, eq: bool) -> (r: Result<LiteralValue, AstError>)
    ensures
        r == compare_result(op, lt, gt, eq),
{
    match op {
        TokenType::Greater => Ok(LiteralValue::Boolean(gt)),
        TokenType::GreaterEqual => Ok(LiteralValue::Boolean(gt || eq)),
        TokenType::Less => Ok(LiteralValue::Boolean(lt)),
        TokenType::LessEqual => Ok(LiteralValue::Boolean(lt || eq)),
        TokenType::BangEqual => Ok(LiteralValue::Boolean(!eq)),
        TokenType::EqualEqual => Ok(LiteralValue::Boolean(eq)),
        _ => Err(AstError::InvalidOperator(op)),
    }
}

fn arith_of(r: Option<Number>) -> (v: Result<LiteralValue, AstError>)
    ensures
        v == arith(r),
{
    match r {
        Some(n) => Ok(LiteralValue::Number(n)),
        None => Err(AstError::NumberOutOfRange),
    }
}

impl LiteralValue {
    /// Builds the literal value that a scanned token stands for.
    pub fn from_token(token: Token) -> (r: Result<LiteralValue, AstError>)
        ensures
            r == token_value(token),
    {
        match token.token_type {
            TokenType::StringLiteral => match unwrap_as_string(token.literal) {
                Ok(s) => Ok(LiteralValue::StringValue(s)),
                Err(e) => Err(e),
            },
            TokenType::Number => match unwrap_as_number(token.literal) {
                Ok(n) => Ok(LiteralValue::Number(n)),
                Err(e) => Err(e),
            },
            TokenType::True => Ok(LiteralValue::Boolean(true)),
            TokenType::False => Ok(LiteralValue::Boolean(false)),
            TokenType::Range => match token.literal {
                Some(lexer::LiteralValue::Bounds(a, b)) => Ok(LiteralValue::Range((a, b))),
                _ => Err(AstError::LiteralValueCreate(token.token_type)),
            },
            TokenType::RangeEqual => match token.literal {
                Some(lexer::LiteralValue::Bounds(a, b)) => Ok(LiteralValue::RangeEqual((a, b))),
                _ => Err(AstError::LiteralValueCreate(token.token_type)),
            },
            _ => Err(AstError::LiteralValueCreate(token.token_type)),
        }
    }

    /// `Boolean(true)` when the value is falsy, `Boolean(false)` when truthy.
    pub fn is_false(&self) -> (r: Result<LiteralValue, AstError>)
        ensures
            r == match truth(*self) {
                Ok(b) => Ok(LiteralValue::Boolean(!b)),
                Err(e) => Err(e),
            },
    {
        match self.truth_value() {
            Ok(b) => Ok(LiteralValue::Boolean(!b)),
            Err(e) => Err(e),
        }
    }

    /// `Boolean(true)` when the value is truthy, `Boolean(false)` when falsy.
    pub fn is_true(&self) -> (r: Result<LiteralValue, AstError>)
        ensures
            r == match truth(*self) {
                Ok(b) => Ok(LiteralValue::Boolean(b)),
                Err(e) => Err(e),
            },
    {
        match self.truth_value() {
            Ok(b) => Ok(LiteralValue::Boolean(b)),
            Err(e) => Err(e),
        }
    }

    pub fn truth_value(&self) -> (r: Result<bool, AstError>)
        ensures
            r == truth(*self),
    {
        match self {
            LiteralValue::Number(n) => Ok(!n.is_zero()),
            LiteralValue::StringValue(s) => Ok(s.as_str().unicode_len() > 0),
            LiteralValue::Boolean(b) => Ok(*b),
            LiteralValue::Null => Ok(false),
            LiteralValue::Range(_) | LiteralValue::RangeEqual(_) => Err(AstError::NotComparable),
        }
    }

    /// Applies a binary operator to two values by the kinds they hold.
    pub fn binary(op: TokenType, lexeme: &String, l: LiteralValue, r: LiteralValue) -> (res: Result<LiteralValue, AstError>)
        ensures
            res == binary_result(op, *lexeme, l, r),
    {
        match (&l, &r) {
            (LiteralValue::Number(a), LiteralValue::Number(b)) => match op {
                TokenType::Plus => arith_of(a.checked_add(b)),
                TokenType::Minus => arith_of(a.checked_sub(b)),
                TokenType::Star => arith_of(a.checked_mul(b)),
                TokenType::Slash => {
                    if b.is_zero() {
                        Err(AstError::DivisionByZero)
                    } else {
                        arith_of(a.checked_div(b))
                    }
                },
                _ => compare(op, a.units < b.units, a.units > b.units, a.units == b.units),
            },
            (LiteralValue::StringValue(a), LiteralValue::StringValue(b)) => {
                let lt = str_less(a.as_str(), b.as_str());
                let gt = str_less(b.as_str(), a.as_str());
                let eq = *a == *b;
                compare(op, lt, gt, eq)
            },
            (LiteralValue::Boolean(a), LiteralValue::Boolean(b)) => match op {
                TokenType::BangEqual => Ok(LiteralValue::Boolean(*a != *b)),
                TokenType::EqualEqual => Ok(LiteralValue::Boolean(*a == *b)),
                _ => Err(AstError::InvalidOperator(op)),
            },
            _ => Err(AstError::InvalidOperation(l, lexeme.clone(), r)),
        }
    }

    /// Appends the printed form of this value to `out`.
    pub fn push_text(&self, out: &mut Vec<char>)
        ensures
            final(out)@ == old(out)@ + value_text(*self),
    {
        match self {
            LiteralValue::Number(n) => n.push_text(out),
            LiteralValue::StringValue(s) => push_str_chars(out, s.as_str()),
            LiteralValue::Boolean(b) => {
                if *b {
                    out.push('t');
                    out.push('r');
                    out.push('u');
                    out.push('e');
                } else {
                    out.push('f');
                    out.push('a');
                    out.push('l');
                    out.push('s');
                    out.push('e');
                }
                assert(out@ =~= old(out)@ + value_text(*self));
            },
            LiteralValue::Range(p) | LiteralValue::RangeEqual(p) => {
                out.push('(');
                push_nat_text(out, p.0 as u64);
                out.push(',');
                out.push(' ');
                push_nat_text(out, p.1 as u64);
                out.push(')');
                assert(out@ =~= old(out)@ + value_text(*self));
            },
            LiteralValue::Null => {
                out.push('N');
                out.push('u');
                out.push('l');
                out.push('l');
                assert(out@ =~= old(out)@ + value_text(*self));
            },
        }
    }
}

} // verus!

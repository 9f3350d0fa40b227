use vstd::prelude::*;

use crate::ast::environment::{EnvState, Environment};
use crate::ast::literal::{binary_result, truth, value_text, LiteralValue};
use crate::text::{push_str_chars, string_from_chars};
use crate::ast::AstError;
use crate::lexer::{Token, TokenType};
use crate::number::fits_i64;

verus! {

/// An expression tree, as the parser builds it.
#[derive(Debug, PartialEq)]
#[allow(inconsistent_fields)]
pub enum Expr {
    Binary { left: Box<Expr>, operator: Token, right: Box<Expr> },
    Grouping { expr: Box<Expr> },
    Literal { value: LiteralValue },
    ReservedLiteral { value: String },
    Unary { operator: Token, right: Box<Expr> },
    Logical { left: Box<Expr>, operator: Token, right: Box<Expr> },
    Variable { id: Token },
    Assign { id: Token, value: Box<Expr> },
    /// A token that carries no value, such as a comment.
    Ignore { token: Token },
}

/// What a unary operator makes of an evaluated operand.
pub open spec fn unary_result(op: TokenType, v: LiteralValue) -> Result<LiteralValue, AstError> {
    match op {
        TokenType::Minus => match v {
            LiteralValue::Number(n) => if fits_i64(-n.units) {
                Ok(LiteralValue::Number(crate::number::Number { units: (-n.units) as i64 }))
            } else {
                Err(AstError::NumberOutOfRange)
            },
            _ => Err(AstError::Unimplemented(TokenType::Minus, v)),
        },
        TokenType::Bang => match truth(v) {
            Ok(b) => Ok(LiteralValue::Boolean(!b)),
            Err(e) => Err(e),
        },
        _ => Err(AstError::InvalidOperator(op)),
    }
}

/// Evaluation of an expression against an environment: its result and
/// the environment afterwards. Operands are evaluated left to right; `&&`
/// and `||` evaluate their right operand only when the left one does not
/// decide.
pub open spec fn eval_spec(e: Expr, env: EnvState) -> (Result<LiteralValue, AstError>, EnvState)
    decreases e,
{
    match e {
        Expr::Variable { id } => match env.lookup(id.lexeme@) {
            Some(v) => (Ok(v), env),
            None => (Err(AstError::NotDeclared(id.lexeme)), env),
        },
        Expr::Assign { id, value } => {
            let (r, env1) = eval_spec(*value, env);
            match r {
                Err(err) => (Err(err), env1),
                Ok(v) => if env1.lookup(id.lexeme@) is Some {
                    (Ok(v), env1.assign(id.lexeme@, v))
                } else {
                    (Err(AstError::NotDeclared(id.lexeme)), env1)
                },
            }
        },
        Expr::Grouping { expr } => eval_spec(*expr, env),
        Expr::Literal { value } => (Ok(value), env),
        Expr::Logical { left, operator, right } => {
            if operator.token_type == TokenType::Or || operator.token_type == TokenType::And {
                let (r, env1) = eval_spec(*left, env);
                match r {
                    Err(err) => (Err(err), env1),
                    Ok(lv) => match truth(lv) {
                        Err(err) => (Err(err), env1),
                        Ok(b) => if b == (operator.token_type == TokenType::Or) {
                            (Ok(lv), env1)
                        } else {
                            eval_spec(*right, env1)
                        },
                    },
                }
            } else {
                (Err(AstError::InvalidOperator(operator.token_type)), env)
            }
        },
        Expr::Unary { operator, right } => {
            let (r, env1) = eval_spec(*right, env);
            match r {
                Err(err) => (Err(err), env1),
                Ok(v) => (unary_result(operator.token_type, v), env1),
            }
        },
        Expr::Binary { left, operator, right } => {
            let (l, env1) = eval_spec(*left, env);
            match l {
                Err(err) => (Err(err), env1),
                Ok(lv) => {
                    let (r, env2) = eval_spec(*right, env1);
                    match r {
                        Err(err) => (Err(err), env2),
                        Ok(rv) => (binary_result(operator.token_type, operator.lexeme, lv, rv), env2),
                    }
                },
            }
        },
        Expr::Ignore { .. } => (Ok(LiteralValue::Null), env),
        Expr::ReservedLiteral { value } => (Err(AstError::ReservedWord(value)), env),
    }
}

/// The printed form of an expression tree, in prefix notation.
pub open spec fn expr_text(e: Expr) -> Seq<char>
    decreases e,
{
    match e {
        Expr::Binary { left, operator, right } | Expr::Logical { left, operator, right } => seq!['(']
            + operator.lexeme@ + seq![' '] + expr_text(*left) + seq![' '] + expr_text(*right) + seq![')'],
        Expr::Grouping { expr } => seq!['(', 'g', 'r', 'o', 'u', 'p', ' '] + expr_text(*expr) + seq![')'],
        Expr::Literal { value } => value_text(value),
        Expr::ReservedLiteral { value } => value@,
        Expr::Unary { operator, right } => seq!['('] + operator.lexeme@ + seq![' '] + expr_text(*right) + seq![')'],
        Expr::Variable { id } => seq!['(', 'v', 'a', 'r', ' '] + id.lexeme@ + seq![')'],
        Expr::Assign { id, value } => seq!['('] + id.lexeme@ + seq![' ', '=', ' '] + expr_text(*value) + seq![')'],
        Expr::Ignore { token } => seq!['(', 'i', 'g', 'n', 'o', 'r', 'e', 'd', ' '] + token.lexeme@ + seq![')'],
    }
}

/// Whether two environment states have the same scopes and names, so that
/// only bound values may differ.
pub open spec fn same_shape(a: EnvState, b: EnvState) -> bool {
    &&& a.names == b.names
    &&& a.depths == b.depths
    &&& a.depth == b.depth
    &&& a.values.len() == b.values.len()
}

fn unary(op: TokenType, v: LiteralValue) -> (r: Result<LiteralValue, AstError>)
    ensures
        r == unary_result(op, v),
{
    match op {
        TokenType::Minus => match &v {
            LiteralValue::Number(n) => match n.checked_neg() {
                Some(m) => Ok(LiteralValue::Number(m)),
                None => Err(AstError::NumberOutOfRange),
            },
            _ => Err(AstError::Unimplemented(TokenType::Minus, v)),
        },
        TokenType::Bang => v.is_false(),
        _ => Err(AstError::InvalidOperator(op)),
    }
}

impl Expr {
    /// Evaluates the expression, reading and assigning variables in
    /// `environment`.
    pub fn eval(&self, environment: &mut Environment) -> (r: Result<LiteralValue, AstError>)
        requires
            old(environment)@.wf(),
        ensures
            final(environment)@.wf(),
            same_shape(old(environment)@, final(environment)@),
            (r, final(environment)@) == eval_spec(*self, old(environment)@),
        decreases self,
    {
        match self {
            Expr::Variable { id } => environment.get(id.lexeme.clone()),
            Expr::Assign { id, value } => {
                let v = value.eval(environment)?;
                match environment.assign(id.lexeme.clone(), v.clone()) {
                    Ok(()) => Ok(v),
                    Err(e) => Err(e),
                }
            },
            Expr::Grouping { expr } => expr.eval(environment),
            Expr::Literal { value } => Ok(value.clone()),
            Expr::Logical { left, operator, right } => {
                if operator.token_type == TokenType::Or || operator.token_type == TokenType::And {
                    let lv = left.eval(environment)?;
                    let b = lv.truth_value()?;
                    if b == (operator.token_type == TokenType::Or) {
                        Ok(lv)
                    } else {
                        right.eval(environment)
                    }
                } else {
                    Err(AstError::InvalidOperator(operator.token_type))
                }
            },
            Expr::Unary { operator, right } => {
                let v = right.eval(environment)?;
                unary(operator.token_type, v)
            },
            Expr::Binary { left, operator, right } => {
                let lv = left.eval(environment)?;
                let rv = right.eval(environment)?;
                LiteralValue::binary(operator.token_type, &operator.lexeme, lv, rv)
            },
            Expr::Ignore { .. } => Ok(LiteralValue::Null),
            Expr::ReservedLiteral { value } => Err(AstError::ReservedWord(value.clone())),
        }
    }

    /// Appends the printed form of the expression to `out`.
    pub fn push_text(&self, out: &mut Vec<char>)
        ensures
            final(out)@ == old(out)@ + expr_text(*self),
        decreases self,
    {
        let ghost start = out@;
        match self {
            Expr::Binary { left, operator, right } | Expr::Logical { left, operator, right } => {
                out.push('(');
                push_str_chars(out, operator.lexeme.as_str());
                out.push(' ');
                left.push_text(out);
                out.push(' ');
                right.push_text(out);
                out.push(')');
            },
            Expr::Grouping { expr } => {
                push_str_chars(out, "(group ");
                proof {
                    reveal_strlit("(group ");
                }
                expr.push_text(out);
                out.push(')');
            },
            Expr::Literal { value } => value.push_text(out),
            Expr::ReservedLiteral { value } => push_str_chars(out, value.as_str()),
            Expr::Unary { operator, right } => {
                out.push('(');
                push_str_chars(out, operator.lexeme.as_str());
                out.push(' ');
                right.push_text(out);
                out.push(')');
            },
            Expr::Variable { id } => {
                push_str_chars(out, "(var ");
                proof {
                    reveal_strlit("(var ");
                }
                push_str_chars(out, id.lexeme.as_str());
                out.push(')');
            },
            Expr::Assign { id, value } => {
                out.push('(');
                push_str_chars(out, id.lexeme.as_str());
                push_str_chars(out, " = ");
                proof {
                    reveal_strlit(" = ");
                }
                value.push_text(out);
                out.push(')');
            },
            Expr::Ignore { token } => {
                push_str_chars(out, "(ignored ");
                proof {
                    reveal_strlit("(ignored ");
                }
                push_str_chars(out, token.lexeme.as_str());
                out.push(')');
            },
        }
        assert(out@ =~= start + expr_text(*self));
    }

    /// The printed form of the expression, in prefix notation.
    pub fn to_text(&self) -> (r: String)
        ensures
            r@ == expr_text(*self),
    {
        let mut out: Vec<char> = Vec::new();
        self.push_text(&mut out);
        assert(out@ =~= expr_text(*self));
        string_from_chars(&out)
    }

    /// Evaluates the expression in a fresh environment with no bindings.
    pub fn evaluate(&self) -> (r: Result<LiteralValue, AstError>)
        ensures
            r == eval_spec(*self, Environment::new_state()).0,
    {
        let mut env = Environment::new();
        self.eval(&mut env)
    }
}

/// `&&` short-circuits: when its left operand evaluates to a falsy value,
/// the right operand is never evaluated, so the result is the left value and
/// the environment is exactly what the left operand left behind.
pub proof fn law_and_short_circuits(left: Expr, operator: Token, right: Expr, env: EnvState)
    requires
        operator.token_type == TokenType::And,
        eval_spec(left, env).0 matches Ok(v) && truth(v) == Ok::<bool, AstError>(false),
    ensures
        eval_spec(Expr::Logical { left: Box::new(left), operator, right: Box::new(right) }, env) == eval_spec(left, env),
{
}

/// `||` short-circuits: when its left operand evaluates to a truthy value,
/// the right operand is never evaluated.
pub proof fn law_or_short_circuits(left: Expr, operator: Token, right: Expr, env: EnvState)
    requires
        operator.token_type == TokenType::Or,
        eval_spec(left, env).0 matches Ok(v) && truth(v) == Ok::<bool, AstError>(true),
    ensures
        eval_spec(Expr::Logical { left: Box::new(left), operator, right: Box::new(right) }, env) == eval_spec(left, env),
{
}

} // verus!

use fps_lang::ast::environment::Environment;
use fps_lang::ast::expr::Expr;
use fps_lang::ast::literal::{unwrap_as_number, unwrap_as_string, LiteralValue};
use fps_lang::ast::AstError;
use fps_lang::lexer::{self, FpsInput, Token, TokenType};
use fps_lang::number::Number;
use fps_lang::parser::Parser;

fn expr(text: &str) -> Expr {
    let mut scanner = FpsInput::new(text);
    scanner.scan_tokens().unwrap();
    let mut parser = Parser::new(scanner.tokens);
    parser.expression().unwrap()
}

fn n(units: i64) -> LiteralValue {
    LiteralValue::Number(Number { units })
}

#[test]
fn assignment_then_increment_reads_two() {
    let mut env = Environment::new();
    env.declare("a".to_string(), LiteralValue::Null).unwrap();
    expr("a = 1").eval(&mut env).unwrap();
    assert_eq!(expr("a = a + 1").eval(&mut env), Ok(n(2_000_000)));
    assert_eq!(expr("a").eval(&mut env), Ok(n(2_000_000)));
}

#[test]
fn division_by_zero_fails() {
    assert_eq!(expr("1 / 0").evaluate(), Err(AstError::DivisionByZero));
}

#[test]
fn string_plus_number_fails() {
    assert_eq!(
        expr("\"a\" + 1").evaluate(),
        Err(AstError::InvalidOperation(LiteralValue::StringValue("a".to_string()), "+".to_string(), n(1_000_000)))
    );
}

#[test]
fn and_does_not_evaluate_its_right_side_after_false() {
    let mut env = Environment::new();
    env.declare("a".to_string(), n(0)).unwrap();
    assert_eq!(expr("false && (a = 1)").eval(&mut env), Ok(LiteralValue::Boolean(false)));
    assert_eq!(env.get("a".to_string()), Ok(n(0)));
}

#[test]
fn or_does_not_evaluate_its_right_side_after_true() {
    let mut env = Environment::new();
    env.declare("a".to_string(), n(0)).unwrap();
    assert_eq!(expr("\"yes\" || (a = 1)").eval(&mut env), Ok(LiteralValue::StringValue("yes".to_string())));
    assert_eq!(env.get("a".to_string()), Ok(n(0)));
    assert_eq!(expr("0 || (a = 1)").eval(&mut env), Ok(n(1_000_000)));
    assert_eq!(env.get("a".to_string()), Ok(n(1_000_000)));
}

#[test]
fn arithmetic_is_exact_to_six_places() {
    assert_eq!(expr("1.5 * 1.5").evaluate(), Ok(n(2_250_000)));
    assert_eq!(expr("0 - 7 / 2").evaluate(), Ok(n(-3_500_000)));
    assert_eq!(expr("1 / 3").evaluate(), Ok(n(333_333)));
    assert_eq!(expr("-1 / 3").evaluate(), Ok(n(-333_333)));
    assert_eq!(expr("10 - 0.25").evaluate(), Ok(n(9_750_000)));
}

#[test]
fn results_out_of_range_fail() {
    assert_eq!(expr("9000000000000 * 9000000000000").evaluate(), Err(AstError::NumberOutOfRange));
}

#[test]
fn comparisons_by_kind() {
    assert_eq!(expr("2 >= 2").evaluate(), Ok(LiteralValue::Boolean(true)));
    assert_eq!(expr("\"abc\" < \"abd\"").evaluate(), Ok(LiteralValue::Boolean(true)));
    assert_eq!(expr("\"b\" <= \"a\"").evaluate(), Ok(LiteralValue::Boolean(false)));
    assert_eq!(expr("true != false").evaluate(), Ok(LiteralValue::Boolean(true)));
    assert_eq!(expr("true < false").evaluate(), Err(AstError::InvalidOperator(TokenType::Less)));
    assert_eq!(expr("\"a\" * \"b\"").evaluate(), Err(AstError::InvalidOperator(TokenType::Star)));
}

#[test]
fn unary_operators() {
    assert_eq!(expr("-2").evaluate(), Ok(n(-2_000_000)));
    assert_eq!(expr("!0").evaluate(), Ok(LiteralValue::Boolean(true)));
    assert_eq!(expr("!\"x\"").evaluate(), Ok(LiteralValue::Boolean(false)));
    assert_eq!(
        expr("-\"x\"").evaluate(),
        Err(AstError::Unimplemented(TokenType::Minus, LiteralValue::StringValue("x".to_string())))
    );
    assert_eq!(expr("!1..2").evaluate(), Err(AstError::NotComparable));
}

#[test]
fn truthiness_of_each_kind() {
    assert_eq!(n(0).is_true(), Ok(LiteralValue::Boolean(false)));
    assert_eq!(n(5).is_true(), Ok(LiteralValue::Boolean(true)));
    assert_eq!(LiteralValue::StringValue(String::new()).is_true(), Ok(LiteralValue::Boolean(false)));
    assert_eq!(LiteralValue::Boolean(true).is_false(), Ok(LiteralValue::Boolean(false)));
    assert_eq!(LiteralValue::Null.is_false(), Ok(LiteralValue::Boolean(true)));
    assert_eq!(LiteralValue::RangeEqual((1, 2)).is_true(), Err(AstError::NotComparable));
}

#[test]
fn unknown_variable_fails() {
    assert_eq!(expr("b").evaluate(), Err(AstError::NotDeclared("b".to_string())));
    assert_eq!(expr("b = 1").evaluate(), Err(AstError::NotDeclared("b".to_string())));
}

#[test]
fn reserved_word_fails() {
    assert_eq!(expr("it").evaluate(), Err(AstError::ReservedWord("it".to_string())));
}

#[test]
fn literal_tokens() {
    let plus = Token::new(TokenType::Plus, "+".to_string(), None, 1, 1);
    assert_eq!(LiteralValue::from_token(plus), Err(AstError::LiteralValueCreate(TokenType::Plus)));
    let bare = Token::new(TokenType::StringLiteral, "s".to_string(), None, 1, 1);
    assert_eq!(LiteralValue::from_token(bare), Err(AstError::UnwrapString(None)));
    let null = Token::new(TokenType::Null, "null".to_string(), Some(lexer::LiteralValue::Keyword("null".to_string())), 1, 4);
    assert_eq!(LiteralValue::from_token(null), Err(AstError::LiteralValueCreate(TokenType::Null)));
    let range = Token::new(TokenType::Range, "1..4".to_string(), Some(lexer::LiteralValue::Bounds(1, 4)), 1, 4);
    assert_eq!(LiteralValue::from_token(range), Ok(LiteralValue::Range((1, 4))));
}

#[test]
fn unwrapping_token_payloads() {
    assert_eq!(
        unwrap_as_string(Some(lexer::LiteralValue::Identifier("id".to_string()))),
        Ok("id".to_string())
    );
    assert_eq!(
        unwrap_as_string(Some(lexer::LiteralValue::Fps(1))),
        Err(AstError::UnwrapString(Some(lexer::LiteralValue::Fps(1))))
    );
    assert_eq!(unwrap_as_number(Some(lexer::LiteralValue::Number(Number { units: 7 }))), Ok(Number { units: 7 }));
    assert_eq!(unwrap_as_number(None), Err(AstError::UnwrapNumber(None)));
}

#[test]
fn expression_text_forms() {
    assert_eq!(expr("a = -b").to_text(), "(a = (- (var b)))");
    assert_eq!(expr("2.5 + \"s\"").to_text(), "(+ 2.5 s)");
}

#[test]
fn arithmetic_pretty_print_ast() {
    let minus_token = Token::new(TokenType::Minus, "-".to_string(), None, 0, 0);
    let num = Expr::Literal { value: n(123_000_000) };
    let group = Expr::Grouping { expr: Box::new(Expr::Literal { value: n(45_000_000) }) };
    let multi = Token::new(TokenType::Star, "*".to_string(), None, 0, 0);

    let ast = Expr::Binary {
        left: Box::new(Expr::Unary { operator: minus_token, right: Box::new(num) }),
        operator: multi,
        right: Box::new(group),
    };

    assert_eq!(ast.to_text(), "(* (- 123) (group 45))".to_string());
}

#[test]
fn expr_pretty_print_ast() {
    let minus_token = Token::new(TokenType::Minus, "-".to_string(), None, 0, 0);
    let num = Expr::Literal { value: n(123_000_000) };
    let group = Expr::Grouping { expr: Box::new(Expr::Literal { value: n(45_000_000) }) };
    let multi = Token::new(TokenType::Star, "*".to_string(), None, 0, 0);

    let ast = Expr::Binary {
        left: Box::new(Expr::Unary { operator: minus_token, right: Box::new(num) }),
        operator: multi,
        right: Box::new(group),
    };

    assert_eq!(ast.to_text(), "(* (- 123) (group 45))".to_string());
}

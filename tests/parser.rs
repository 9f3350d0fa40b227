use fps_lang::ast::expr::Expr;
use fps_lang::ast::literal::LiteralValue;
use fps_lang::ast::statement::Statement;
use fps_lang::lexer::{self, FpsInput, Token, TokenType};
use fps_lang::number::Number;
use fps_lang::parser::{Parser, ParserError};

fn num(units: i64) -> Number {
    Number { units }
}

fn token(token_type: TokenType, lexeme: &str, literal: Option<lexer::LiteralValue>) -> Token {
    Token::new(token_type, lexeme.into(), literal, 0, 0)
}

fn scan(input: &str) -> Vec<Token> {
    let mut scanner = FpsInput::new(input);
    scanner.scan_tokens().expect("error scanning tokens");
    scanner.tokens
}

#[test]
fn test_addition() {
    let input = vec![
        token(TokenType::Number, "4.", Some(lexer::LiteralValue::Number(num(4_000_000)))),
        token(TokenType::Plus, "+", None),
        token(TokenType::Number, "20", Some(lexer::LiteralValue::Number(num(20_000_000)))),
        token(TokenType::Semicolon, ";", None),
    ];

    let mut parser = Parser::new(input);
    let expression = parser.expression();

    assert_eq!(expression.unwrap().to_text(), "(+ 4 20)")
}

#[test]
fn test_comparison() {
    let mut parser = Parser::new(scan("4 + 20 == 5 + 6"));
    let expression = parser.expression();

    assert_eq!(expression.unwrap().to_text(), "(== (+ 4 20) (+ 5 6))")
}

#[test]
fn test_comparison_paren() {
    let mut parser = Parser::new(scan("1 == (2 - 1)"));
    let expression = parser.expression();

    assert_eq!(expression.unwrap().to_text(), "(== 1 (group (- 2 1)))")
}

#[test]
fn test_print_statement() {
    let mut parser = Parser::new(scan("print(1); ##"));
    let expression = parser.parse();

    let expected = vec![
        Statement::Print(Expr::Literal { value: LiteralValue::Number(num(1_000_000)) }),
        Statement::FpsEnd(Token {
            token_type: TokenType::FpsEnd,
            lexeme: "##".to_owned(),
            literal: None,
            line: 1,
            pos: 12,
        }),
    ];

    assert_eq!(expression.unwrap(), expected)
}

#[test]
fn declaration() {
    let mut parser = Parser::new(scan("let a = 1.; ##"));
    let expression = parser.parse();

    let expected = vec![
        Statement::Declaration {
            id: Token {
                token_type: TokenType::Identifer,
                lexeme: "a".to_owned(),
                literal: Some(lexer::LiteralValue::Identifier("a".to_owned())),
                line: 1,
                pos: 5,
            },
            expr: Expr::Literal { value: LiteralValue::Number(num(1_000_000)) },
        },
        Statement::FpsEnd(Token {
            token_type: TokenType::FpsEnd,
            lexeme: "##".to_owned(),
            literal: None,
            line: 1,
            pos: 14,
        }),
    ];

    assert_eq!(expression.unwrap(), expected)
}

#[test]
fn declaration_assign() {
    let mut parser = Parser::new(scan("let a = 1;a = 2; ##"));
    let expression = parser.parse();

    let expected = vec![
        Statement::Declaration {
            id: Token {
                token_type: TokenType::Identifer,
                lexeme: "a".to_owned(),
                literal: Some(lexer::LiteralValue::Identifier("a".to_owned())),
                line: 1,
                pos: 5,
            },
            expr: Expr::Literal { value: LiteralValue::Number(num(1_000_000)) },
        },
        Statement::ArithmeticExpr(Expr::Assign {
            id: Token {
                token_type: TokenType::Identifer,
                lexeme: "a".to_string(),
                literal: Some(lexer::LiteralValue::Identifier("a".to_string())),
                line: 1,
                pos: 11,
            },
            value: Box::from(Expr::Literal { value: LiteralValue::Number(num(2_000_000)) }),
        }),
        Statement::FpsEnd(Token {
            token_type: TokenType::FpsEnd,
            lexeme: "##".to_owned(),
            literal: None,
            line: 1,
            pos: 19,
        }),
    ];

    assert_eq!(expression.unwrap(), expected)
}

#[test]
fn declaration_print() {
    let mut parser = Parser::new(scan("let a = 1;print(a); ##"));
    let expression = parser.parse();

    let expected = vec![
        Statement::Declaration {
            id: Token {
                token_type: TokenType::Identifer,
                lexeme: "a".to_owned(),
                literal: Some(lexer::LiteralValue::Identifier("a".to_owned())),
                line: 1,
                pos: 5,
            },
            expr: Expr::Literal { value: LiteralValue::Number(num(1_000_000)) },
        },
        Statement::Print(Expr::Variable {
            id: Token {
                token_type: TokenType::Identifer,
                lexeme: "a".to_owned(),
                literal: Some(lexer::LiteralValue::Identifier("a".to_owned())),
                line: 1,
                pos: 17,
            },
        }),
        Statement::FpsEnd(Token {
            token_type: TokenType::FpsEnd,
            lexeme: "##".to_owned(),
            literal: None,
            line: 1,
            pos: 22,
        }),
    ];

    assert_eq!(expression.unwrap(), expected)
}

#[test]
fn program_without_end_marker_is_refused() {
    let mut parser = Parser::new(scan("print(1);"));
    assert_eq!(parser.parse(), Err(ParserError::ExpectedFpsEnd));
}

#[test]
fn logical_operators_are_parsed() {
    let mut parser = Parser::new(scan("a || b && c"));
    assert_eq!(parser.expression().unwrap().to_text(), "(|| (var a) (&& (var b) (var c)))");
}

#[test]
fn assignment_to_a_non_variable_is_refused() {
    let mut parser = Parser::new(scan("1 = 2"));
    assert_eq!(parser.expression(), Err(ParserError::InvalidAssignment));
}

#[test]
fn for_loop_is_parsed() {
    let mut parser = Parser::new(scan("for 0..=2 { print(1); } ##"));
    let statements = parser.parse().unwrap();
    match &statements[0] {
        Statement::For { expr, for_block } => {
            assert_eq!(expr.to_text(), "(0, 2)");
            assert_eq!(for_block.len(), 1);
        },
        other => panic!("not a loop: {:?}", other),
    }
}

#[test]
fn parse_errors_are_collected_and_parsing_goes_on() {
    let mut parser = Parser::new(scan("1 + ; print(2); let = 3; ##"));
    match parser.parse() {
        Err(ParserError::MultipleErrors(errors)) => assert_eq!(errors.len(), 2),
        other => panic!("unexpected result: {:?}", other),
    }
}

#[test]
fn print_takes_its_first_argument() {
    let mut parser = Parser::new(scan("print(1 2); ##"));
    let statements = parser.parse().unwrap();
    assert_eq!(statements[0], Statement::Print(Expr::Literal { value: LiteralValue::Number(num(1_000_000)) }));
}

#[test]
fn if_else_is_parsed() {
    let mut parser = Parser::new(scan("if a { print(1); } else { print(2); } ##"));
    let statements = parser.parse().unwrap();
    match &statements[0] {
        Statement::If { condition, then_block, else_block } => {
            assert_eq!(condition.to_text(), "(var a)");
            assert_eq!(then_block.len(), 1);
            assert_eq!(else_block.as_ref().map(|b| b.len()), Some(1));
        },
        other => panic!("not an if: {:?}", other),
    }
}

#[test]
fn null_literal_is_refused() {
    let mut parser = Parser::new(scan("print(null); ##"));
    match parser.parse() {
        Err(ParserError::MultipleErrors(errors)) => assert_eq!(
            errors,
            vec![ParserError::Literal(fps_lang::ast::AstError::LiteralValueCreate(TokenType::Null))]
        ),
        other => panic!("unexpected result: {:?}", other),
    }
}

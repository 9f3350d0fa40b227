use fps_lang::lexer::TokenType as T;
use fps_lang::lexer::{FpsInput, LexerError, LiteralValue, TokenType};
use fps_lang::number::Number;

fn types_of(scanner: FpsInput) -> Vec<TokenType> {
    scanner.tokens.into_iter().map(|x| x.token_type).collect::<Vec<TokenType>>()
}

#[test]
fn single_char_tokens() {
    let input = "# ; = : ( ) { } + - * / ! > <";
    let expected = vec![
        T::Fps, T::Semicolon, T::Equal, T::Colon, T::OpenParen, T::CloseParen, T::OpenBrace, T::CloseBrace, T::Plus, T::Minus, T::Star, T::Slash, T::Bang,
        T::Greater, T::Less, T::Eof,
    ];

    let mut scanner = FpsInput::new(input);
    let _tokens = scanner.scan_tokens();

    assert_eq!(scanner.tokens.len(), 16);
    assert_eq!(types_of(scanner), expected);
}

#[test]
fn two_char_tokens() {
    let input = "#10 == != >= <= && || ";
    let expected = vec![T::Fps, T::EqualEqual, T::BangEqual, T::GreaterEqual, T::LessEqual, T::And, T::Or, T::Eof];

    let mut scanner = FpsInput::new(input);
    let _tokens = scanner.scan_tokens();

    assert_eq!(scanner.tokens.len(), 8);
    assert_eq!(types_of(scanner), expected);
}

#[test]
fn types() {
    let input = "0..1 1..=2";
    let expected = vec![T::Range, T::RangeEqual, T::Eof];

    let mut scanner = FpsInput::new(input);
    let _tokens = scanner.scan_tokens();

    assert_eq!(scanner.tokens.len(), 3);
    assert_eq!(types_of(scanner), expected);
}

#[test]
fn comment() {
    let input = "//I am a comment\n";
    let expected = vec![T::Comment, T::Eof];

    let mut scanner = FpsInput::new(input);
    let _tokens = scanner.scan_tokens();

    assert_eq!(scanner.tokens.len(), 2);
    assert_eq!(scanner.tokens[0].lexeme, "I am a comment");
    assert_eq!(types_of(scanner), expected);
}

#[test]
fn string_literal() {
    let input = "\"I am a string literal\"";
    let expected = vec![T::StringLiteral, T::Eof];

    let mut scanner = FpsInput::new(input);
    let _tokens = scanner.scan_tokens();

    assert_eq!(scanner.tokens.len(), 2);
    assert_eq!(
        scanner.tokens[0].literal,
        Some(LiteralValue::StringValue("I am a string literal".to_owned()))
    );
    assert_eq!(types_of(scanner), expected);
}

#[test]
fn numeric_literal() {
    let input = "123.123";
    let expected = vec![T::Number, T::Eof];

    let mut scanner = FpsInput::new(input);
    let _tokens = scanner.scan_tokens();

    assert_eq!(scanner.tokens.len(), 2);
    assert_eq!(scanner.tokens[0].literal, Some(LiteralValue::Number(fps_lang::number::Number { units: 123_123_000 })));
    assert_eq!(types_of(scanner), expected);
}

#[test]
fn identifer_literal() {
    let input = "id";
    let expected = vec![T::Identifer, T::Eof];

    let mut scanner = FpsInput::new(input);
    let _tokens = scanner.scan_tokens();

    assert_eq!(scanner.tokens.len(), 2);
    assert_eq!(scanner.tokens[0].literal, Some(LiteralValue::Identifier("id".to_owned())));
    assert_eq!(types_of(scanner), expected);
}

#[test]
fn unterminated_consumption() {
    let input = "\"I do not end...";

    let mut scanner = FpsInput::new(input);
    let result = scanner.scan_tokens();

    assert_eq!(
        result.unwrap_err(),
        LexerError::UnterminatedConsumption(vec!['"'], "I do not end...".to_string(), 1)
    );
}

#[test]
fn keywords() {
    let input = "for forca print println";
    let expected = vec![T::For, T::Identifer, T::Print, T::Println, T::Eof];

    let mut scanner = FpsInput::new(input);
    let _ = scanner.scan_tokens();

    assert_eq!(scanner.tokens.len(), 5);
    assert_eq!(scanner.tokens[0].literal, Some(LiteralValue::Keyword("for".to_owned())));
    assert_eq!(scanner.tokens[2].literal, Some(LiteralValue::Keyword("print".to_owned())));
    assert_eq!(scanner.tokens[3].literal, Some(LiteralValue::Keyword("println".to_owned())));
    assert_eq!(types_of(scanner), expected);
}

#[test]
fn fractional_digits_beyond_six_are_dropped() {
    let mut scanner = FpsInput::new("2.5 0.0000019");
    scanner.scan_tokens().unwrap();
    assert_eq!(scanner.tokens[0].literal, Some(LiteralValue::Number(Number { units: 2_500_000 })));
    assert_eq!(scanner.tokens[1].literal, Some(LiteralValue::Number(Number { units: 1 })));
}

#[test]
fn frame_marker_counts() {
    let mut scanner = FpsInput::new("# #3 ##");
    scanner.scan_tokens().unwrap();
    assert_eq!(scanner.tokens[0].literal, Some(LiteralValue::Fps(1)));
    assert_eq!(scanner.tokens[1].literal, Some(LiteralValue::Fps(3)));
    assert_eq!(scanner.tokens[2].token_type, TokenType::FpsEnd);
}

#[test]
fn range_bounds_are_carried() {
    let mut scanner = FpsInput::new("2..15 0..=3");
    scanner.scan_tokens().unwrap();
    assert_eq!(scanner.tokens[0].literal, Some(LiteralValue::Bounds(2, 15)));
    assert_eq!(scanner.tokens[1].literal, Some(LiteralValue::Bounds(0, 3)));
}

#[test]
fn unknown_character_is_refused() {
    let mut scanner = FpsInput::new("a @");
    assert_eq!(scanner.scan_tokens(), Err(LexerError::UnrecognizedChar('@', 1)));
}

#[test]
fn range_without_upper_bound_is_refused() {
    let mut scanner = FpsInput::new("\n1..;");
    assert_eq!(scanner.scan_tokens(), Err(LexerError::Range(2)));
}

#[test]
fn large_frame_counts_scan() {
    let mut scanner = FpsInput::new("#5000000000");
    scanner.scan_tokens().unwrap();
    assert_eq!(scanner.tokens[0].literal, Some(LiteralValue::Fps(5_000_000_000)));
    assert_eq!(scanner.tokens[0].lexeme, "#5000000000");
}

use fps_lang::ast::environment::Environment;
use fps_lang::ast::fps::Fps;
use fps_lang::ast::statement::Statement;
use fps_lang::ast::AstError;
use fps_lang::interpreter::Interpreter;
use fps_lang::lexer::FpsInput;
use fps_lang::parser::Parser;
use fps_lang::run::{run_file, RunError};

fn statements(text: &str) -> Vec<Statement> {
    let mut scanner = FpsInput::new(text);
    scanner.scan_tokens().unwrap();
    let mut parser = Parser::new(scanner.tokens);
    parser.parse().unwrap()
}

fn plan(text: &str) -> Result<Fps, AstError> {
    let mut fps = Fps::new();
    let mut env = Environment::new();
    fps.allocate_statements_to_frame(&mut env, statements(text))?;
    Ok(fps)
}

#[test]
fn loop_free_plan_covers_the_marked_ticks() {
    let fps = plan("let a = 1; #2 a = a + 1; print(a); # ##").unwrap();
    assert_eq!(fps.frames, vec![vec![0], vec![1, 2], vec![1, 2], vec![]]);
    assert_eq!(fps.statements.len(), 3);
    assert!(matches!(fps.statements[0], Statement::Declaration { .. }));
    assert!(matches!(fps.statements[2], Statement::Print(_)));
}

#[test]
fn statements_after_the_last_marker_are_not_scheduled() {
    let mut stream = statements("print(1); # print(2); ##");
    stream.pop();
    let mut fps = Fps::new();
    let mut env = Environment::new();
    fps.allocate_statements_to_frame(&mut env, stream).unwrap();
    assert_eq!(fps.frames, vec![vec![0]]);
}

#[test]
fn scheduling_the_same_stream_twice_gives_the_same_plan() {
    let text = "let a = 0; #2 for 0..=1 { a = a + 1; } print(a); ##";
    let first = plan(text).unwrap();
    let second = plan(text).unwrap();
    assert_eq!(first.frames, second.frames);
    assert_eq!(first.statements, second.statements);
}

#[test]
fn loop_body_fills_the_widened_window_and_the_window_comes_back() {
    let fps = plan("print(0); for 0..=2 { print(1); } print(2); ##").unwrap();
    assert_eq!(fps.frames, vec![vec![0, 1, 2], vec![1], vec![1]]);
}

#[test]
fn half_open_loop_counts_one_less() {
    let fps = plan("for 0..3 { print(1); } ##").unwrap();
    assert_eq!(fps.frames, vec![vec![0], vec![0], vec![0]]);
}

#[test]
fn loop_later_in_the_timeline_uses_the_shifted_formula() {
    let fps = plan("#2 for 0..=1 { print(1); } ##").unwrap();
    assert_eq!(fps.frames, vec![vec![], vec![0], vec![0], vec![0], vec![0]]);
}

#[test]
fn loop_with_a_non_range_bound_fails() {
    let mut fps = Fps::new();
    let mut env = Environment::new();
    let mut stream = statements("for 1..2 { print(1); } ##");
    if let Statement::For { expr, .. } = &mut stream[0] {
        *expr = fps_lang::ast::expr::Expr::Literal { value: fps_lang::ast::literal::LiteralValue::Null };
    }
    assert_eq!(fps.allocate_statements_to_frame(&mut env, stream), Err(AstError::InvalidLoopBound));
}

#[test]
fn loop_with_a_reversed_range_fails() {
    assert!(matches!(plan("for 3..1 { print(1); } ##"), Err(AstError::InvalidLoopBound)));
}

#[test]
fn a_loop_reaching_a_frame_is_an_internal_error() {
    let mut interpreter = Interpreter::new();
    let mut out: Vec<String> = Vec::new();
    let mut stream = statements("print(1); ##");
    let cond = match stream.remove(0) {
        Statement::Print(e) => e,
        _ => unreachable!(),
    };
    stream.insert(0, Statement::While { condition: cond, while_block: vec![] });
    assert_eq!(interpreter.interpret(&mut out, stream), Err(AstError::LoopInFrame));
}

#[test]
fn run_file_reports_each_stage() {
    let mut out: Vec<String> = Vec::new();
    assert_eq!(run_file("print(1); ##", &mut out), Ok(()));
    assert_eq!(out, vec!["FPS 1 -> 1".to_string()]);

    let mut out: Vec<String> = Vec::new();
    assert!(matches!(run_file("print(1); $", &mut out), Err(RunError::Lexer(_))));
    assert!(matches!(run_file("print(1);", &mut out), Err(RunError::Parser(_))));
    assert_eq!(run_file("print(x); ##", &mut out), Err(RunError::Runtime(AstError::NotDeclared("x".to_string()))));
    assert!(out.is_empty());
}

#[test]
fn identifiers_may_hold_letters_beyond_ascii() {
    let mut out: Vec<String> = Vec::new();
    assert_eq!(run_file("let été2 = 2; print(été2); ##", &mut out), Ok(()));
    assert_eq!(out, vec!["FPS 1 -> 2".to_string()]);
}

#[test]
fn statements_after_a_loop_fill_the_pre_loop_window_only() {
    let fps = plan("print(0); for 0..=1 { print(1); } print(2); print(3); #2 ##").unwrap();
    assert_eq!(fps.frames, vec![vec![0, 1, 2, 3], vec![1], vec![]]);
}

#[test]
fn a_failing_loop_bound_leaves_the_flushed_plan() {
    let mut fps = Fps::new();
    let mut env = Environment::new();
    let r = fps.allocate_statements_to_frame(&mut env, statements("print(0); for 3..1 { print(1); } print(2); ##"));
    assert_eq!(r, Err(AstError::InvalidLoopBound));
    assert_eq!(fps.frames, vec![vec![0]]);
    assert_eq!(fps.statements.len(), 1);
}

#[test]
fn a_second_pass_appends_to_existing_frames() {
    let mut fps = Fps::new();
    let mut env = Environment::new();
    let mut first = statements("for 0..=2 { print(1); } ##");
    first.pop();
    fps.allocate_statements_to_frame(&mut env, first).unwrap();
    assert_eq!(fps.frames, vec![vec![0], vec![0], vec![0]]);
    fps.allocate_statements_to_frame(&mut env, statements("print(2); ##")).unwrap();
    assert_eq!(fps.frames, vec![vec![0, 1], vec![0], vec![0]]);
}

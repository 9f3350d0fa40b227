use fps_lang::interpreter::Interpreter;
use fps_lang::lexer::FpsInput;
use fps_lang::parser::Parser;

fn run(input: &str) -> (Result<(), fps_lang::ast::AstError>, String) {
    let mut scanner = FpsInput::new(input);
    scanner.scan_tokens().unwrap();
    let mut parser = Parser::new(scanner.tokens);
    let statements = parser.parse().unwrap();
    let mut interpreter = Interpreter::new();
    let mut stdout: Vec<String> = Vec::new();
    let r = interpreter.interpret(&mut stdout, statements);
    let text: String = stdout.iter().map(|l| format!("{}\n", l)).collect();
    (r, text)
}

#[test]
fn multiple_frames() {
    let input = "let a = 1; #2 a = a + 1; # print(a); ##";
    let expected = "FPS 4 -> 3\n";

    let (r, text) = run(input);
    r.unwrap();

    assert_eq!(text, expected)
}

#[test]
fn single_print() {
    let (r, text) = run("print(1); ##");
    r.unwrap();
    assert_eq!(text, "FPS 1 -> 1\n");
}

#[test]
fn statements_repeat_on_every_frame_of_their_window() {
    let (r, text) = run("let a = 0; #3 a = a + 1; print(a); ##");
    r.unwrap();
    assert_eq!(text, "FPS 2 -> 1\nFPS 3 -> 2\nFPS 4 -> 3\n");
}

#[test]
fn loop_body_spreads_over_the_widened_window() {
    let (r, text) = run("for 0..=2 { print(\"x\"); } ##");
    r.unwrap();
    assert_eq!(text, "FPS 1 -> x\nFPS 2 -> x\nFPS 3 -> x\n");
}

#[test]
fn values_print_in_their_textual_form() {
    let (r, text) = run("print(7 / 2); print(\"s\"); print(1 < 2); let n; print(n); print(0 - 0.25); print(2..5); ##");
    r.unwrap();
    assert_eq!(text, "FPS 1 -> 3.5\nFPS 1 -> s\nFPS 1 -> true\nFPS 1 -> Null\nFPS 1 -> -0.25\nFPS 1 -> (2, 5)\n");
}

#[test]
fn block_scope_shadows_and_restores() {
    let (r, text) = run("let a = 1; { let a = 2; print(a); } print(a); ##");
    r.unwrap();
    assert_eq!(text, "FPS 1 -> 2\nFPS 1 -> 1\n");
}

#[test]
fn if_runs_the_chosen_branch() {
    let (r, text) = run("if 0 { print(1); } else { print(2); } if \"x\" { print(3); } ##");
    r.unwrap();
    assert_eq!(text, "FPS 1 -> 2\nFPS 1 -> 3\n");
}

#[test]
fn output_before_an_error_is_kept() {
    let (r, text) = run("print(1); # print(1 / 0); ##");
    assert_eq!(r, Err(fps_lang::ast::AstError::DivisionByZero));
    assert_eq!(text, "FPS 1 -> 1\n");
}

#[test]
fn redeclaring_across_frames_fails() {
    let (r, _) = run("let a = 1; # let a = 2; ##");
    assert_eq!(r, Err(fps_lang::ast::AstError::AlreadyDeclared("a".to_string())));
}

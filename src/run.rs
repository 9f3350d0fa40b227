use vstd::prelude::*;

use crate::ast::environment::Environment;
use crate::ast::statement::Statement;
use crate::ast::AstError;
use crate::interpreter::{interpret_spec, texts, Interpreter};
use crate::lexer::{scan_from, shape_of, FpsInput, LexerError, Token, TokenType};
use crate::parser::{g_program, stmts_are, Parser, ParserError};

verus! {

/// Why a program text did not run to its end.
#[derive(Debug, PartialEq)]
pub enum RunError {
    Lexer(LexerError),
    Parser(ParserError),
    Runtime(AstError),
}

/// Whether `toks` is what the scanner makes of `input`: the tokens that
/// the lexical grammar gives, then the end-of-input token.
pub open spec fn scanned_as(input: Seq<char>, toks: Seq<Token>) -> bool {
    &&& scan_from(input, 0, 1) matches Some(shapes)
    &&& toks.len() == shapes.len() + 1
    &&& forall|k: int| 0 <= k < shapes.len() ==> shape_of(#[trigger] toks[k], shapes[k])
    &&& toks.last().token_type == TokenType::Eof
}

/// Whether the program grammar accepts `toks` as the statements `ss`.
pub open spec fn parsed_as(toks: Seq<Token>, ss: Seq<Statement>) -> bool {
    let (gs, err, e) = g_program(toks, 0);
    &&& !err
    &&& e >= 1
    &&& toks[e - 1].token_type == TokenType::FpsEnd
    &&& stmts_are(ss, gs)
}

/// Whether the program grammar accepts `toks` at all.
pub open spec fn parses(toks: Seq<Token>) -> bool {
    let (gs, err, e) = g_program(toks, 0);
    !err && e >= 1 && toks[e - 1].token_type == TokenType::FpsEnd
}

/// Scans, parses and runs one program text with `interpreter`, whose
/// variables carry over from earlier texts. Lines printed before a runtime
/// error stay in `out`; a text that does not scan or parse runs nothing.
pub fn execute(interpreter: &mut Interpreter, input: &str, out: &mut Vec<String>) -> (r: Result<(), RunError>)
    requires
        old(interpreter)@.wf(),
    ensures
        final(interpreter)@.wf(),
        r matches Err(RunError::Lexer(_)) <==> scan_from(input@, 0, 1) is None,
        r matches Err(RunError::Parser(_)) ==> exists|toks: Seq<Token>| scanned_as(input@, toks) && !parses(toks),
        r is Ok ==> exists|toks: Seq<Token>, ss: Seq<Statement>|
            scanned_as(input@, toks) && #[trigger] parsed_as(toks, ss)
            && interpret_spec(ss, old(interpreter)@, texts(old(out)@)) == (
                Ok::<(), AstError>(()),
                final(interpreter)@,
                texts(final(out)@),
            ),
        r matches Err(RunError::Runtime(e)) ==> exists|toks: Seq<Token>, ss: Seq<Statement>|
            scanned_as(input@, toks) && #[trigger] parsed_as(toks, ss)
            && interpret_spec(ss, old(interpreter)@, texts(old(out)@)) == (
                Err::<(), AstError>(e),
                final(interpreter)@,
                texts(final(out)@),
            ),
        r matches Err(RunError::Lexer(_)) ==> final(interpreter)@ == old(interpreter)@ && final(out)@ == old(out)@,
        r matches Err(RunError::Parser(_)) ==> final(interpreter)@ == old(interpreter)@ && final(out)@ == old(out)@,
{
    let mut scanner = FpsInput::new(input);
    match scanner.scan_tokens() {
        Ok(u) => {
            assert(u == ());
        },
        Err(e) => return Err(RunError::Lexer(e)),
    }
    let tokens = scanner.into_tokens();
    let ghost toks = tokens@;
    proof {
        let shapes = scan_from(input@, 0, 1)->0;
        assert forall|k: int| 0 <= k < shapes.len() implies shape_of(#[trigger] toks[k], shapes[k]) by {
            assert(toks[0 + k] == toks[k]);
        }
    }
    assert(scanned_as(input@, toks));
    let mut parser = Parser::new(tokens);
    let statements = match parser.parse() {
        Ok(s) => s,
        Err(e) => {
            assert(!parses(toks));
            return Err(RunError::Parser(e));
        },
    };
    let ghost ss = statements@;
    assert(parsed_as(toks, ss));
    match interpreter.interpret(out, statements) {
        Ok(u) => {
            assert(u == ());
            assert(interpret_spec(ss, old(interpreter)@, texts(old(out)@)).0 == Ok::<(), AstError>(()));
            Ok(())
        },
        Err(e) => Err(RunError::Runtime(e)),
    }
}

/// Runs one program text from a fresh interpreter.
pub fn run_file(input: &str, out: &mut Vec<String>) -> (r: Result<(), RunError>)
    ensures
        r matches Err(RunError::Lexer(_)) <==> scan_from(input@, 0, 1) is None,
        r matches Err(RunError::Parser(_)) ==> exists|toks: Seq<Token>| scanned_as(input@, toks) && !parses(toks),
        r is Ok ==> exists|toks: Seq<Token>, ss: Seq<Statement>|
            scanned_as(input@, toks) && #[trigger] parsed_as(toks, ss)
            && interpret_spec(ss, Environment::new_state(), texts(old(out)@)).0 == Ok::<(), AstError>(())
            && interpret_spec(ss, Environment::new_state(), texts(old(out)@)).2 == texts(final(out)@),
        r matches Err(RunError::Runtime(e)) ==> exists|toks: Seq<Token>, ss: Seq<Statement>|
            scanned_as(input@, toks) && #[trigger] parsed_as(toks, ss)
            && interpret_spec(ss, Environment::new_state(), texts(old(out)@)).0 == Err::<(), AstError>(e)
            && interpret_spec(ss, Environment::new_state(), texts(old(out)@)).2 == texts(final(out)@),
        r matches Err(RunError::Lexer(_)) ==> final(out)@ == old(out)@,
        r matches Err(RunError::Parser(_)) ==> final(out)@ == old(out)@,
{
    let mut interpreter = Interpreter::new();
    execute(&mut interpreter, input, out)
}

} // verus!

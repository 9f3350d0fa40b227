use vstd::prelude::*;

use crate::ast::environment::{EnvState, Environment};
use crate::ast::expr::eval_spec;
use crate::ast::fps::{plan_of, Fps, Plan};
use crate::ast::literal::{truth, value_text, LiteralValue};
use crate::ast::statement::Statement;
use crate::ast::AstError;
use crate::text::{nat_text, push_nat_text, string_from_chars};

verus! {

/// The output line that `print` writes on frame `frame`.
pub open spec fn line_text(frame: nat, v: LiteralValue) -> Seq<char> {
    seq!['F', 'P', 'S', ' '] + nat_text(frame) + seq![' ', '-', '>', ' '] + value_text(v)
}

/// The characters of each output line.
pub open spec fn texts(v: Seq<String>) -> Seq<Seq<char>> {
    v.map_values(|s: String| s@)
}

/// Runs one statement on frame `frame`: its result, the environment after
/// it, and the output lines after it.
pub open spec fn exec_stmt(s: Statement, frame: nat, env: EnvState, out: Seq<Seq<char>>) -> (
    Result<(), AstError>,
    EnvState,
    Seq<Seq<char>>,
)
    decreases s, 0nat,
{
    match s {
        Statement::Fps(_) | Statement::FpsEnd(_) | Statement::Comment(_) => (Ok(()), env, out),
        Statement::ArithmeticExpr(e) => {
            let (r, env1) = eval_spec(e, env);
            match r {
                Ok(_) => (Ok(()), env1, out),
                Err(err) => (Err(err), env1, out),
            }
        },
        Statement::Print(e) => {
            let (r, env1) = eval_spec(e, env);
            match r {
                Ok(v) => (Ok(()), env1, out.push(line_text(frame, v))),
                Err(err) => (Err(err), env1, out),
            }
        },
        Statement::Declaration { id, expr } => {
            let (r, env1) = eval_spec(expr, env);
            match r {
                Ok(v) => if env1.declared_here(id.lexeme@) {
                    (Err(AstError::AlreadyDeclared(id.lexeme)), env1, out)
                } else {
                    (Ok(()), env1.declare(id.lexeme@, v), out)
                },
                Err(err) => (Err(err), env1, out),
            }
        },
        Statement::Block { statements } => {
            if env.depth >= usize::MAX {
                (Err(AstError::ScopeOverflow), env, out)
            } else {
                let (r, env1, out1) = exec_list(statements@, frame, env.push_scope(), out);
                (r, env1.pop_scope(), out1)
            }
        },
        Statement::If { condition, then_block, else_block } => {
            let (r, env1) = eval_spec(condition, env);
            match r {
                Err(err) => (Err(err), env1, out),
                Ok(v) => match truth(v) {
                    Err(err) => (Err(err), env1, out),
                    Ok(true) => exec_list(then_block@, frame, env1, out),
                    Ok(false) => match else_block {
                        Some(b) => exec_list(b@, frame, env1, out),
                        None => (Ok(()), env1, out),
                    },
                },
            }
        },
        Statement::For { .. } | Statement::While { .. } => (Err(AstError::LoopInFrame), env, out),
    }
}

/// Runs statements in order on frame `frame`; the first error stops them.
pub open spec fn exec_list(ss: Seq<Statement>, frame: nat, env: EnvState, out: Seq<Seq<char>>) -> (
    Result<(), AstError>,
    EnvState,
    Seq<Seq<char>>,
)
    decreases ss, 1nat,
{
    if ss.len() == 0 {
        (Ok(()), env, out)
    } else {
        let (r, env1, out1) = exec_list(ss.drop_last(), frame, env, out);
        match r {
            Err(e) => (Err(e), env1, out1),
            Ok(()) => exec_stmt(ss.last(), frame, env1, out1),
        }
    }
}

/// Runs the statements `idxs` of `pool`, in order, on frame `frame`.
pub open spec fn run_frame(pool: Seq<Statement>, idxs: Seq<usize>, frame: nat, env: EnvState, out: Seq<Seq<char>>) -> (
    Result<(), AstError>,
    EnvState,
    Seq<Seq<char>>,
)
    decreases idxs.len(),
{
    if idxs.len() == 0 {
        (Ok(()), env, out)
    } else {
        let (r, env1, out1) = run_frame(pool, idxs.drop_last(), frame, env, out);
        match r {
            Err(e) => (Err(e), env1, out1),
            Ok(()) => exec_stmt(pool[idxs.last() as int], frame, env1, out1),
        }
    }
}

/// Runs every frame of a plan in ascending order: tick `t` is frame `t + 1`.
pub open spec fn run_frames(pool: Seq<Statement>, frames: Seq<Seq<usize>>, env: EnvState, out: Seq<Seq<char>>) -> (
    Result<(), AstError>,
    EnvState,
    Seq<Seq<char>>,
)
    decreases frames.len(),
{
    if frames.len() == 0 {
        (Ok(()), env, out)
    } else {
        let (r, env1, out1) = run_frames(pool, frames.drop_last(), env, out);
        match r {
            Err(e) => (Err(e), env1, out1),
            Ok(()) => run_frame(pool, frames.last(), frames.len() as nat, env1, out1),
        }
    }
}

/// A whole run: schedule the statement stream from an empty plan, then run
/// its frames. Output written before an error stays written.
pub open spec fn interpret_spec(ss: Seq<Statement>, env: EnvState, out: Seq<Seq<char>>) -> (
    Result<(), AstError>,
    EnvState,
    Seq<Seq<char>>,
) {
    match plan_of(ss, env) {
        (Err(e), env1) => (Err(e), env1, out),
        (Ok(p), env1) => run_frames(p.pool, p.frames, env1, out),
    }
}

proof fn lemma_frame_err_persists(pool: Seq<Statement>, idxs: Seq<usize>, frame: nat, env: EnvState, out: Seq<Seq<char>>, i: int)
    requires
        0 <= i <= idxs.len(),
        run_frame(pool, idxs.take(i), frame, env, out).0 is Err,
    ensures
        run_frame(pool, idxs, frame, env, out) == run_frame(pool, idxs.take(i), frame, env, out),
    decreases idxs.len(),
{
    if i < idxs.len() {
        assert(idxs.drop_last().take(i) =~= idxs.take(i));
        lemma_frame_err_persists(pool, idxs.drop_last(), frame, env, out, i);
    } else {
        assert(idxs.take(i) =~= idxs);
    }
}

proof fn lemma_frames_err_persists(pool: Seq<Statement>, frames: Seq<Seq<usize>>, env: EnvState, out: Seq<Seq<char>>, i: int)
    requires
        0 <= i <= frames.len(),
        run_frames(pool, frames.take(i), env, out).0 is Err,
    ensures
        run_frames(pool, frames, env, out) == run_frames(pool, frames.take(i), env, out),
    decreases frames.len(),
{
    if i < frames.len() {
        assert(frames.drop_last().take(i) =~= frames.take(i));
        lemma_frames_err_persists(pool, frames.drop_last(), env, out, i);
    } else {
        assert(frames.take(i) =~= frames);
    }
}

proof fn lemma_exec_err_persists(ss: Seq<Statement>, frame: nat, env: EnvState, out: Seq<Seq<char>>, i: int)
    requires
        0 <= i <= ss.len(),
        exec_list(ss.take(i), frame, env, out).0 is Err,
    ensures
        exec_list(ss, frame, env, out) == exec_list(ss.take(i), frame, env, out),
    decreases ss.len(),
{
    if i < ss.len() {
        assert(ss.drop_last().take(i) =~= ss.take(i));
        lemma_exec_err_persists(ss.drop_last(), frame, env, out, i);
    } else {
        assert(ss.take(i) =~= ss);
    }
}

/// Appends the line that `print` writes for `v` on frame `frame`.
fn push_line(out: &mut Vec<String>, frame: usize, v: &LiteralValue)
    ensures
        texts(final(out)@) == texts(old(out)@).push(line_text(frame as nat, *v)),
{
    let mut line: Vec<char> = Vec::new();
    line.push('F');
    line.push('P');
    line.push('S');
    line.push(' ');
    push_nat_text(&mut line, frame as u64);
    line.push(' ');
    line.push('-');
    line.push('>');
    line.push(' ');
    v.push_text(&mut line);
    assert(line@ =~= line_text(frame as nat, *v));
    let ghost before = out@;
    out.push(string_from_chars(&line));
    assert(texts(out@) =~= texts(before).push(line_text(frame as nat, *v)));
}

/// Runs frame plans against one environment that persists across frames
/// and across calls.
pub struct Interpreter {
    environment: Environment,
}

impl View for Interpreter {
    type V = EnvState;

    closed spec fn view(&self) -> EnvState {
        self.environment@
    }
}

impl Interpreter {
    pub fn new() -> (r: Interpreter)
        ensures
            r@.wf(),
            r@ == Environment::new_state(),
    {
        Interpreter { environment: Environment::new() }
    }

    /// Schedules the statement stream into a fresh frame plan, then runs
    /// the plan frame by frame in ascending order, writing one line to
    /// `out` for each `print`. Variables persist across frames and calls.
    pub fn interpret(&mut self, out: &mut Vec<String>, statements: Vec<Statement>) -> (r: Result<(), AstError>)
        requires
            old(self)@.wf(),
        ensures
            final(self)@.wf(),
            r == interpret_spec(statements@, old(self)@, texts(old(out)@)).0,
            final(self)@ == interpret_spec(statements@, old(self)@, texts(old(out)@)).1,
            texts(final(out)@) == interpret_spec(statements@, old(self)@, texts(old(out)@)).2,
    {
        let ghost full = interpret_spec(statements@, self@, texts(out@));
        let mut fps = Fps::new();
        match fps.allocate_statements_to_frame(&mut self.environment, statements) {
            Err(e) => return Err(e),
            Ok(u) => {
                assert(u == ());
            },
        }
        let ghost plan = fps@;
        let ghost env0 = self@;
        let ghost out0 = texts(out@);
        assert(full == run_frames(plan.pool, plan.frames, env0, out0));
        assert(fps@.frames.take(0) =~= Seq::<Seq<usize>>::empty());
        let mut t: usize = 0;
        while t < fps.frame_count()
            invariant
                fps@ == plan,
                plan.wf(),
                full == run_frames(plan.pool, plan.frames, env0, out0),
                full == interpret_spec(statements@, old(self)@, texts(old(out)@)),
                t <= plan.frames.len(),
                self@.wf(),
                run_frames(plan.pool, plan.frames.take(t as int), env0, out0) == (
                    Ok::<(), AstError>(()),
                    self@,
                    texts(out@),
                ),
            decreases plan.frames.len() - t,
        {
            let ghost fenv = self@;
            let ghost fout = texts(out@);
            let ghost idxs = plan.frames[t as int];
            assert(idxs.take(0) =~= Seq::<usize>::empty());
            let n = fps.frame_len(t);
            let mut k: usize = 0;
            while k < n
                invariant
                    fps@ == plan,
                    plan.wf(),
                    full == run_frames(plan.pool, plan.frames, env0, out0),
                    full == interpret_spec(statements@, old(self)@, texts(old(out)@)),
                    t < plan.frames.len(),
                    plan.frames.len() <= usize::MAX,
                    idxs == plan.frames[t as int],
                    run_frames(plan.pool, plan.frames.take(t as int), env0, out0) == (
                        Ok::<(), AstError>(()),
                        fenv,
                        fout,
                    ),
                    n == idxs.len(),
                    k <= n,
                    self@.wf(),
                    run_frame(plan.pool, idxs.take(k as int), (t + 1) as nat, fenv, fout) == (
                        Ok::<(), AstError>(()),
                        self@,
                        texts(out@),
                    ),
                decreases n - k,
            {
                let idx = fps.frame_entry(t, k);
                assert(idx == idxs[k as int]);
                assert(idx < plan.pool.len());
                let ghost pre_env = self@;
                let ghost pre_out = texts(out@);
                proof {
                    assert(idxs.take(k + 1).drop_last() =~= idxs.take(k as int));
                    assert(idxs.take(k + 1).last() == idx);
                }
                let r = self.exec_statement(t + 1, out, fps.statement(idx));
                match r {
                    Err(e) => {
                        proof {
                            lemma_frame_err_persists(plan.pool, idxs, (t + 1) as nat, fenv, fout, k + 1);
                            assert(idxs.take(n as int) =~= idxs);
                            assert(plan.frames.take(t + 1).len() == t + 1);
                            assert(plan.frames.take(t + 1).drop_last() =~= plan.frames.take(t as int));
                            assert(plan.frames.take(t + 1).last() == idxs);
                            lemma_frames_err_persists(plan.pool, plan.frames, env0, out0, t + 1);
                        }
                        return Err(e);
                    },
                    Ok(u) => {
                        assert(u == ());
                    },
                }
                k = k + 1;
            }
            proof {
                assert(idxs.take(n as int) =~= idxs);
                assert(plan.frames.take(t + 1).drop_last() =~= plan.frames.take(t as int));
                assert(plan.frames.take(t + 1).last() == idxs);
            }
            t = t + 1;
        }
        assert(plan.frames.take(plan.frames.len() as int) =~= plan.frames);
        Ok(())
    }

    fn exec_statement(&mut self, frame: usize, out: &mut Vec<String>, s: &Statement) -> (r: Result<(), AstError>)
        requires
            old(self)@.wf(),
        ensures
            final(self)@.wf(),
            final(self)@.depth == old(self)@.depth,
            r == exec_stmt(*s, frame as nat, old(self)@, texts(old(out)@)).0,
            final(self)@ == exec_stmt(*s, frame as nat, old(self)@, texts(old(out)@)).1,
            texts(final(out)@) == exec_stmt(*s, frame as nat, old(self)@, texts(old(out)@)).2,
        decreases s, 0nat,
    {
        match s {
            Statement::Fps(_) | Statement::FpsEnd(_) | Statement::Comment(_) => Ok(()),
            Statement::ArithmeticExpr(e) => {
                match e.eval(&mut self.environment) {
                    Ok(_) => Ok(()),
                    Err(err) => Err(err),
                }
            },
            Statement::Print(e) => match e.eval(&mut self.environment) {
                Ok(v) => {
                    push_line(out, frame, &v);
                    Ok(())
                },
                Err(err) => Err(err),
            },
            Statement::Declaration { id, expr } => match expr.eval(&mut self.environment) {
                Ok(v) => self.environment.declare(id.lexeme.clone(), v),
                Err(err) => Err(err),
            },
            Statement::Block { statements } => {
                if self.environment.depth() == usize::MAX {
                    return Err(AstError::ScopeOverflow);
                }
                self.environment.push_scope();
                let r = self.exec_list(frame, out, statements);
                self.environment.pop_scope();
                r
            },
            Statement::If { condition, then_block, else_block } => {
                let v = match condition.eval(&mut self.environment) {
                    Ok(v) => v,
                    Err(err) => return Err(err),
                };
                match v.truth_value() {
                    Err(err) => Err(err),
                    Ok(true) => self.exec_list(frame, out, then_block),
                    Ok(false) => match else_block {
                        Some(b) => self.exec_list(frame, out, b),
                        None => Ok(()),
                    },
                }
            },
            Statement::For { .. } | Statement::While { .. } => Err(AstError::LoopInFrame),
        }
    }

    fn exec_list(&mut self, frame: usize, out: &mut Vec<String>, ss: &Vec<Statement>) -> (r: Result<(), AstError>)
        requires
            old(self)@.wf(),
        ensures
            final(self)@.wf(),
            final(self)@.depth == old(self)@.depth,
            r == exec_list(ss@, frame as nat, old(self)@, texts(old(out)@)).0,
            final(self)@ == exec_list(ss@, frame as nat, old(self)@, texts(old(out)@)).1,
            texts(final(out)@) == exec_list(ss@, frame as nat, old(self)@, texts(old(out)@)).2,
        decreases ss@, 1nat,
    {
        let ghost env0 = self@;
        let ghost out0 = texts(out@);
        let mut i: usize = 0;
        assert(ss@.take(0) =~= Seq::<Statement>::empty());
        while i < ss.len()
            invariant
                i <= ss.len(),
                self@.wf(),
                self@.depth == env0.depth,
                env0 == old(self)@,
                out0 == texts(old(out)@),
                exec_list(ss@.take(i as int), frame as nat, env0, out0) == (
                    Ok::<(), AstError>(()),
                    self@,
                    texts(out@),
                ),
            decreases ss.len() - i,
        {
            let ghost pre_env = self@;
            let ghost pre_out = texts(out@);
            proof {
                assert(ss@.take(i + 1).drop_last() =~= ss@.take(i as int));
                assert(ss@.take(i + 1).last() == ss@[i as int]);
                assert(exec_list(ss@.take(i + 1), frame as nat, env0, out0)
                    == exec_stmt(ss@[i as int], frame as nat, pre_env, pre_out));
            }
            let r = self.exec_statement(frame, out, &ss[i]);
            match r {
                Err(e) => {
                    proof {
                        lemma_exec_err_persists(ss@, frame as nat, env0, out0, i + 1);
                    }
                    return Err(e);
                },
                Ok(u) => {
                    assert(r == Ok::<(), AstError>(u));
                    assert(u == ());
                },
            }
            i = i + 1;
        }
        assert(ss@.take(ss.len() as int) =~= ss@);
        Ok(())
    }
}

} // verus!

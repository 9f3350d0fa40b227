use vstd::prelude::*;

use crate::ast::environment::{EnvState, Environment};
use crate::ast::expr::{eval_spec, same_shape, Expr};
use crate::ast::literal::LiteralValue;
use crate::ast::statement::{marker_duration, token_duration, Statement};
use crate::ast::AstError;

verus! {

/// A frame plan: every statement that was scheduled, held once in `pool`,
/// and for each tick `t` the indices into `pool` that run on frame `t + 1`,
/// in order. `[start, end)` is the window of ticks that currently takes
/// buffered statements.
pub ghost struct Plan {
    pub pool: Seq<Statement>,
    pub frames: Seq<Seq<usize>>,
    pub start: int,
    pub end: int,
}

impl Plan {
    pub open spec fn wf(self) -> bool {
        &&& 0 <= self.start <= self.end
        &&& self.start <= self.frames.len()
        &&& self.end >= 1
        &&& forall|t: int, k: int| 0 <= t < self.frames.len() && 0 <= k < self.frames[t].len()
            ==> #[trigger] self.frames[t][k] < self.pool.len()
    }

    /// The plan before any statement: no frames, window `[0, 1)`.
    pub open spec fn initial() -> Plan {
        Plan { pool: Seq::empty(), frames: Seq::empty(), start: 0, end: 1 }
    }
}

/// Appends `buf` to the statement list of every tick in `[start, end)`,
/// creating the lists of ticks not yet planned.
pub open spec fn flush(frames: Seq<Seq<usize>>, start: int, end: int, buf: Seq<usize>) -> Seq<Seq<usize>> {
    let len = if end > frames.len() {
        end
    } else {
        frames.len() as int
    };
    Seq::new(
        len as nat,
        |t: int|
            if start <= t < end {
                if t < frames.len() {
                    frames[t] + buf
                } else {
                    buf
                }
            } else {
                frames[t]
            },
    )
}

/// The window that a loop of `n` further iterations spreads its body over,
/// anchored at the start of the current window.
pub open spec fn loop_end(end: int, n: int) -> int {
    if end == 1 {
        end + end * n
    } else {
        end + end * n - 1
    }
}

/// The iteration count that a loop bound stands for: `s..e` gives
/// `e - s - 1`, `s..=e` gives `e - s`.
pub open spec fn loop_count(v: LiteralValue) -> Result<int, AstError> {
    match v {
        LiteralValue::Range((s, e)) => if e - s - 1 >= 0 {
            Ok(e - s - 1)
        } else {
            Err(AstError::InvalidLoopBound)
        },
        LiteralValue::RangeEqual((s, e)) => if e - s >= 0 {
            Ok(e - s)
        } else {
            Err(AstError::InvalidLoopBound)
        },
        _ => Err(AstError::InvalidLoopBound),
    }
}

/// Indices `from, from + 1, ..., from + n - 1`.
pub open spec fn index_run(from: int, n: int) -> Seq<usize> {
    Seq::new(n as nat, |k: int| (from + k) as usize)
}

/// One step of the scheduler on statement `s`, with `buf` the statements
/// buffered since the last flush: the new plan and buffer, and the
/// environment after any loop bound was evaluated.
pub open spec fn alloc_step(p: Plan, buf: Seq<usize>, s: Statement, env: EnvState) -> (
    Result<(Plan, Seq<usize>), AstError>,
    EnvState,
) {
    match s {
        Statement::Comment(_) => (Ok((p, buf)), env),
        Statement::Fps(tok) => {
            let f = flush(p.frames, p.start, p.end, buf);
            if p.end + marker_duration(tok) > usize::MAX {
                (Err(AstError::TimelineOverflow), env)
            } else {
                (Ok((Plan { frames: f, start: p.end, end: p.end + marker_duration(tok), ..p }, Seq::empty())), env)
            }
        },
        Statement::FpsEnd(_) => {
            let f = flush(p.frames, p.start, p.end, buf);
            (Ok((Plan { frames: f, start: p.end, end: p.end, ..p }, Seq::empty())), env)
        },
        Statement::For { expr, for_block } => {
            let f = flush(p.frames, p.start, p.end, buf);
            let (r, env1) = eval_spec(expr, env);
            match r {
                Err(e) => (Err(e), env1),
                Ok(v) => match loop_count(v) {
                    Err(e) => (Err(e), env1),
                    Ok(n) => if loop_end(p.end, n) > usize::MAX {
                        (Err(AstError::TimelineOverflow), env1)
                    } else {
                        let body = index_run(p.pool.len() as int, for_block@.len() as int);
                        let f2 = flush(f, p.start, loop_end(p.end, n), body);
                        (Ok((Plan { pool: p.pool + for_block@, frames: f2, ..p }, Seq::empty())), env1)
                    },
                },
            }
        },
        _ => (Ok((Plan { pool: p.pool.push(s), ..p }, buf.push(p.pool.len() as usize))), env),
    }
}

/// The scheduler run over a whole statement stream, in order; the first
/// error stops it.
pub open spec fn alloc_all(p: Plan, buf: Seq<usize>, ss: Seq<Statement>, env: EnvState) -> (
    Result<(Plan, Seq<usize>), AstError>,
    EnvState,
)
    decreases ss.len(),
{
    if ss.len() == 0 {
        (Ok((p, buf)), env)
    } else {
        let (r, env1) = alloc_all(p, buf, ss.drop_last(), env);
        match r {
            Err(e) => (Err(e), env1),
            Ok((p1, b1)) => alloc_step(p1, b1, ss.last(), env1),
        }
    }
}

/// The frame plan of a statement stream, scheduled from the initial plan.
pub open spec fn plan_of(ss: Seq<Statement>, env: EnvState) -> (Result<Plan, AstError>, EnvState) {
    let (r, env1) = alloc_all(Plan::initial(), Seq::empty(), ss, env);
    match r {
        Ok((p, _)) => (Ok(p), env1),
        Err(e) => (Err(e), env1),
    }
}

/// The plan that a failing marker or loop leaves behind: the statements
/// buffered before it flushed to the current window, nothing else changed.
pub open spec fn failed_step_plan(p: Plan, buf: Seq<usize>) -> Plan {
    Plan { frames: flush(p.frames, p.start, p.end, buf), ..p }
}

/// The plan that scheduling a stream leaves behind, whether it succeeds or
/// stops at its first error.
pub open spec fn alloc_left(p: Plan, buf: Seq<usize>, ss: Seq<Statement>, env: EnvState) -> Plan
    decreases ss.len(),
{
    if ss.len() == 0 {
        p
    } else {
        let (r, env1) = alloc_all(p, buf, ss.drop_last(), env);
        match r {
            Err(_) => alloc_left(p, buf, ss.drop_last(), env),
            Ok((p1, b1)) => match alloc_step(p1, b1, ss.last(), env1).0 {
                Ok((q, _)) => q,
                Err(_) => failed_step_plan(p1, b1),
            },
        }
    }
}

/// Every tick of `o` is still there in `f`, with its statements as a
/// prefix of what `f` lists: entries only grow, by appending.
pub open spec fn extends(o: Seq<Seq<usize>>, f: Seq<Seq<usize>>) -> bool {
    &&& o.len() <= f.len()
    &&& forall|t: int| 0 <= t < o.len() ==> (#[trigger] o[t]).len() <= f[t].len() && f[t].subrange(0, o[t].len() as int) == o[t]
}

proof fn lemma_flush_extends(frames: Seq<Seq<usize>>, start: int, end: int, buf: Seq<usize>)
    ensures
        extends(frames, flush(frames, start, end, buf)),
{
    let f = flush(frames, start, end, buf);
    assert forall|t: int| 0 <= t < frames.len() implies (#[trigger] frames[t]).len() <= f[t].len() && f[t].subrange(
        0,
        frames[t].len() as int,
    ) == frames[t] by {
        if start <= t < end {
            assert(f[t].subrange(0, frames[t].len() as int) =~= frames[t]);
        }
    }
}

proof fn lemma_extends_refl(a: Seq<Seq<usize>>)
    ensures
        extends(a, a),
{
    assert forall|t: int| 0 <= t < a.len() implies (#[trigger] a[t]).len() <= a[t].len() && a[t].subrange(0, a[t].len() as int) == a[t] by {
        assert(a[t].subrange(0, a[t].len() as int) =~= a[t]);
    }
}

proof fn lemma_extends_trans(a: Seq<Seq<usize>>, b: Seq<Seq<usize>>, c: Seq<Seq<usize>>)
    requires
        extends(a, b),
        extends(b, c),
    ensures
        extends(a, c),
{
    assert forall|t: int| 0 <= t < a.len() implies (#[trigger] a[t]).len() <= c[t].len() && c[t].subrange(0, a[t].len() as int) == a[t] by {
        assert(b[t].len() <= c[t].len());
        assert(c[t].subrange(0, b[t].len() as int).subrange(0, a[t].len() as int) =~= c[t].subrange(0, a[t].len() as int));
    }
}

proof fn lemma_left_of_success(p: Plan, buf: Seq<usize>, ss: Seq<Statement>, env: EnvState)
    requires
        alloc_all(p, buf, ss, env).0 is Ok,
    ensures
        alloc_left(p, buf, ss, env) == alloc_all(p, buf, ss, env).0->Ok_0.0,
{
}

proof fn lemma_left_persists(p: Plan, buf: Seq<usize>, ss: Seq<Statement>, env: EnvState, i: int)
    requires
        0 <= i <= ss.len(),
        alloc_all(p, buf, ss.take(i), env).0 is Err,
    ensures
        alloc_left(p, buf, ss, env) == alloc_left(p, buf, ss.take(i), env),
    decreases ss.len(),
{
    if i < ss.len() {
        assert(ss.drop_last().take(i) =~= ss.take(i));
        lemma_alloc_err_persists(p, buf, ss.drop_last(), env, i);
        lemma_left_persists(p, buf, ss.drop_last(), env, i);
    } else {
        assert(ss.take(i) =~= ss);
    }
}

/// The scheduler: turns a statement stream into a frame plan.
pub struct Fps {
    /// Every scheduled statement, once.
    pub statements: Vec<Statement>,
    /// For each tick `t`, the indices into `statements` that run on frame
    /// `t + 1`.
    pub frames: Vec<Vec<usize>>,
    start: usize,
    end: usize,
}

impl View for Fps {
    type V = Plan;

    closed spec fn view(&self) -> Plan {
        Plan {
            pool: self.statements@,
            frames: self.frames@.map_values(|f: Vec<usize>| f@),
            start: self.start as int,
            end: self.end as int,
        }
    }
}

fn copy_indices(v: &Vec<usize>) -> (r: Vec<usize>)
    ensures
        r@ == v@,
{
    let mut r: Vec<usize> = Vec::new();
    let mut i: usize = 0;
    while i < v.len()
        invariant
            i <= v.len(),
            r@ == v@.subrange(0, i as int),
        decreases v.len() - i,
    {
        r.push(v[i]);
        i = i + 1;
        assert(r@ =~= v@.subrange(0, i as int));
    }
    assert(v@.subrange(0, v.len() as int) =~= v@);
    r
}

impl Fps {
    /// An empty plan whose window is the first tick.
    pub fn new() -> (r: Fps)
        ensures
            r@ == Plan::initial(),
            r@.wf(),
    {
        let r = Fps { statements: Vec::new(), frames: Vec::new(), start: 0, end: 1 };
        assert(r@.frames =~= Seq::<Seq<usize>>::empty());
        r
    }

    /// Number of planned frames.
    pub fn frame_count(&self) -> (r: usize)
        ensures
            r == self@.frames.len(),
    {
        self.frames.len()
    }

    /// Number of statements planned on tick `t`.
    pub fn frame_len(&self, t: usize) -> (r: usize)
        requires
            t < self@.frames.len(),
        ensures
            r == self@.frames[t as int].len(),
    {
        self.frames[t].len()
    }

    /// The pool index of the `k`-th statement planned on tick `t`.
    pub fn frame_entry(&self, t: usize, k: usize) -> (r: usize)
        requires
            t < self@.frames.len(),
            k < self@.frames[t as int].len(),
        ensures
            r == self@.frames[t as int][k as int],
    {
        self.frames[t][k]
    }

    /// The scheduled statement at pool index `i`.
    pub fn statement(&self, i: usize) -> (r: &Statement)
        requires
            i < self@.pool.len(),
        ensures
            *r == self@.pool[i as int],
    {
        &self.statements[i]
    }

    /// Appends `buf` to every tick of the window `[start, end)`.
    fn flush(&mut self, start: usize, end: usize, buf: &Vec<usize>)
        requires
            old(self)@.wf(),
            start <= old(self)@.frames.len(),
            forall|k: int| 0 <= k < buf@.len() ==> buf@[k] < old(self)@.pool.len(),
        ensures
            final(self)@ == (Plan { frames: flush(old(self)@.frames, start as int, end as int, buf@), ..old(self)@ }),
            extends(old(self)@.frames, final(self)@.frames),
    {
        proof {
            lemma_flush_extends(self@.frames, start as int, end as int, buf@);
        }
        let ghost f0 = self@.frames;
        let mut t = start;
        while t < end
            invariant
                start <= t,
                t <= end || end <= start,
                end <= start ==> t == start,
                start <= f0.len(),
                self.statements@ == old(self)@.pool,
                self.start == old(self).start,
                self.end == old(self).end,
                self@.frames.len() == if t > f0.len() { t as int } else { f0.len() as int },
                forall|u: int| 0 <= u < self@.frames.len() ==> #[trigger] self@.frames[u] == if start <= u < t {
                    if u < f0.len() { f0[u] + buf@ } else { buf@ }
                } else {
                    f0[u]
                },
            decreases end - t,
        {
            let ghost before = self@.frames;
            if t < self.frames.len() {
                let mut f = copy_indices(&self.frames[t]);
                let mut i: usize = 0;
                let ghost g = f@;
                while i < buf.len()
                    invariant
                        i <= buf.len(),
                        f@ == g + buf@.subrange(0, i as int),
                    decreases buf.len() - i,
                {
                    f.push(buf[i]);
                    i = i + 1;
                    assert(f@ =~= g + buf@.subrange(0, i as int));
                }
                assert(buf@.subrange(0, buf.len() as int) =~= buf@);
                assert(g == before[t as int]);
                assert(t < f0.len());
                assert(before[t as int] == f0[t as int]);
                self.frames.set(t, f);
                assert(self@.frames[t as int] == f0[t as int] + buf@);
            } else {
                self.frames.push(copy_indices(buf));
                assert(self@.frames[t as int] == buf@);
            }
            proof {
                assert forall|u: int| 0 <= u < self@.frames.len() implies #[trigger] self@.frames[u] == if start <= u < t + 1 {
                    if u < f0.len() { f0[u] + buf@ } else { buf@ }
                } else {
                    f0[u]
                } by {
                    if u != t {
                        assert(self@.frames[u] == before[u]);
                    }
                }
            }
            t = t + 1;
        }
        proof {
            let fl = flush(f0, start as int, end as int, buf@);
            assert(self@.frames.len() == fl.len());
            assert forall|u: int| 0 <= u < fl.len() implies self@.frames[u] == fl[u] by {
                assert(self@.frames[u] == if start <= u < t {
                    if u < f0.len() { f0[u] + buf@ } else { buf@ }
                } else {
                    f0[u]
                });
            }
            assert(self@.frames =~= fl);
        }
    }
}

proof fn lemma_alloc_err_persists(p: Plan, buf: Seq<usize>, ss: Seq<Statement>, env: EnvState, i: int)
    requires
        0 <= i <= ss.len(),
        alloc_all(p, buf, ss.take(i), env).0 is Err,
    ensures
        alloc_all(p, buf, ss, env) == alloc_all(p, buf, ss.take(i), env),
    decreases ss.len(),
{
    if i < ss.len() {
        assert(ss.drop_last().take(i) =~= ss.take(i));
        lemma_alloc_err_persists(p, buf, ss.drop_last(), env, i);
    } else {
        assert(ss.take(i) =~= ss);
    }
}

fn loop_iterations(v: &LiteralValue) -> (r: Result<usize, AstError>)
    ensures
        match loop_count(*v) {
            Ok(n) => r == Ok::<usize, AstError>(n as usize),
            Err(e) => r == Err::<usize, AstError>(e),
        },
{
    match v {
        LiteralValue::Range((s, e)) => if *e > *s {
            Ok(*e - *s - 1)
        } else {
            Err(AstError::InvalidLoopBound)
        },
        LiteralValue::RangeEqual((s, e)) => if *e >= *s {
            Ok(*e - *s)
        } else {
            Err(AstError::InvalidLoopBound)
        },
        _ => Err(AstError::InvalidLoopBound),
    }
}

impl Fps {
    /// Schedules a statement stream, in order, into this plan: plain
    /// statements are buffered and copied onto every tick of the window when
    /// a marker, `##` or loop flushes it; a loop spreads its body over a
    /// window widened by its iteration count, then restores the window.
    /// Loop bounds are evaluated in `environment`; nothing else is run.
    /// Frames only grow by appending. The first error stops scheduling and
    /// the plan is left as `alloc_left` says: the failing marker or loop has
    /// flushed the buffer to the current window, and nothing after it is
    /// scheduled.
    #[verifier::rlimit(50)]
    pub fn allocate_statements_to_frame(&mut self, environment: &mut Environment, statements: Vec<Statement>) -> (r: Result<(), AstError>)
        requires
            old(self)@.wf(),
            old(environment)@.wf(),
        ensures
            final(environment)@.wf(),
            same_shape(old(environment)@, final(environment)@),
            final(environment)@ == alloc_all(old(self)@, Seq::empty(), statements@, old(environment)@).1,
            match alloc_all(old(self)@, Seq::empty(), statements@, old(environment)@).0 {
                Ok((p, _)) => r is Ok && final(self)@ == p && final(self)@.wf(),
                Err(e) => r == Err::<(), AstError>(e),
            },
            final(self)@ == alloc_left(old(self)@, Seq::empty(), statements@, old(environment)@),
            extends(old(self)@.frames, final(self)@.frames),
    {
        let ghost stream = statements@;
        let ghost p0 = self@;
        let ghost env0 = environment@;
        let n = statements.len();
        let mut rest = statements;
        let mut stack: Vec<Statement> = Vec::new();
        while rest.len() > 0
            invariant
                rest.len() + stack.len() == n,
                n == stream.len(),
                forall|j: int| 0 <= j < rest.len() ==> rest@[j] == stream[j],
                forall|j: int| 0 <= j < stack.len() ==> stack@[j] == stream[n - 1 - j],
            decreases rest.len(),
        {
            let s = rest.pop().unwrap();
            stack.push(s);
        }
        let mut buf: Vec<usize> = Vec::new();
        let mut i: usize = 0;
        assert(stream.take(0) =~= Seq::<Statement>::empty());
        proof {
            lemma_extends_refl(p0.frames);
        }
        while stack.len() > 0
            invariant
                stack.len() + i == n,
                n == stream.len(),
                forall|j: int| 0 <= j < stack.len() ==> stack@[j] == stream[n - 1 - j],
                self@.wf(),
                environment@.wf(),
                same_shape(env0, environment@),
                env0 == old(environment)@,
                p0 == old(self)@,
                stream == statements@,
                forall|k: int| 0 <= k < buf@.len() ==> buf@[k] < self@.pool.len(),
                extends(p0.frames, self@.frames),
                alloc_all(p0, Seq::empty(), stream.take(i as int), env0) == (
                    Ok::<(Plan, Seq<usize>), AstError>((self@, buf@)),
                    environment@,
                ),
            decreases stack.len(),
        {
            let s = stack.pop().unwrap();
            let ghost pre = self@;
            let ghost pre_env = environment@;
            let ghost pre_buf = buf@;
            let ghost gs = s;
            let ghost mid = self@.frames;
            proof {
                lemma_extends_refl(mid);
                assert(s == stream[i as int]);
                assert(stream.take(i + 1).drop_last() =~= stream.take(i as int));
                assert(stream.take(i + 1).last() == s);
            }
            let step: Result<(), AstError> = match s {
                Statement::Comment(_) => Ok(()),
                Statement::Fps(tok) => {
                    let d = token_duration(&tok);
                    self.flush(self.start, self.end, &buf);
                    buf = Vec::new();
                    if self.end > usize::MAX - d {
                        Err(AstError::TimelineOverflow)
                    } else {
                        self.start = self.end;
                        self.end = self.end + d;
                        Ok(())
                    }
                },
                Statement::FpsEnd(_) => {
                    self.flush(self.start, self.end, &buf);
                    buf = Vec::new();
                    self.start = self.end;
                    Ok(())
                },
                Statement::For { expr, for_block } => {
                    self.flush(self.start, self.end, &buf);
                    buf = Vec::new();
                    match expr.eval(environment) {
                        Err(e) => Err(e),
                        Ok(v) => match loop_iterations(&v) {
                            Err(e) => Err(e),
                            Ok(count) => {
                                let e: u128 = self.end as u128;
                                let c: u128 = count as u128;
                                assert(e * c <= 0xffff_ffff_ffff_ffff * 0xffff_ffff_ffff_ffff) by (nonlinear_arith)
                                    requires
                                        e <= 0xffff_ffff_ffff_ffff,
                                        c <= 0xffff_ffff_ffff_ffff,
                                ;
                                let wide: u128 = e + e * c;
                                let widened: u128 = if self.end == 1 { wide } else { wide - 1 };
                                if widened > usize::MAX as u128 {
                                    Err(AstError::TimelineOverflow)
                                } else {
                                    let base = self.statements.len();
                                    let mut body = for_block;
                                    let m = body.len();
                                    self.statements.append(&mut body);
                                    let mut run: Vec<usize> = Vec::new();
                                    let mut k: usize = 0;
                                    while k < m
                                        invariant
                                            k <= m,
                                            base + m == self.statements.len(),
                                            run@ == index_run(base as int, k as int),
                                        decreases m - k,
                                    {
                                        run.push(base + k);
                                        k = k + 1;
                                        assert(run@ =~= index_run(base as int, k as int));
                                    }
                                    let ghost flushed = self@.frames;
                                    self.flush(self.start, widened as usize, &run);
                                    proof {
                                        lemma_extends_trans(mid, flushed, self@.frames);
                                    }
                                    Ok(())
                                }
                            },
                        },
                    }
                },
                other => {
                    let idx = self.statements.len();
                    self.statements.push(other);
                    buf.push(idx);
                    Ok(())
                },
            };
            proof {
                lemma_extends_trans(p0.frames, pre.frames, self@.frames);
            }
            match step {
                Err(e) => {
                    proof {
                        assert(self@ == failed_step_plan(pre, pre_buf));
                        assert(alloc_left(p0, Seq::empty(), stream.take(i + 1), env0) == failed_step_plan(pre, pre_buf));
                        lemma_left_persists(p0, Seq::empty(), stream, env0, i + 1);
                        assert(alloc_step(pre, pre_buf, gs, pre_env).0 == Err::<(Plan, Seq<usize>), AstError>(e));
                        assert(alloc_step(pre, pre_buf, gs, pre_env).1 == environment@);
                        assert(alloc_all(p0, Seq::empty(), stream.take(i + 1), env0) == alloc_step(pre, pre_buf, gs, pre_env));
                        lemma_alloc_err_persists(p0, Seq::empty(), stream, env0, i + 1);
                    }
                    return Err(e);
                },
                Ok(()) => {},
            }
            i = i + 1;
        }
        assert(stream.take(n as int) =~= stream);
        proof {
            lemma_left_of_success(p0, Seq::empty(), stream, env0);
        }
        Ok(())
    }
}

/// Scheduling is deterministic: two plans scheduled from the same stream,
/// starting from the same plan and the same environment, are identical,
/// and so is the environment each leaves behind, whether the scheduling
/// succeeds or fails.
pub proof fn law_same_stream_same_plan(
    p: Plan,
    ss1: Seq<Statement>,
    ss2: Seq<Statement>,
    env1: EnvState,
    env2: EnvState,
)
    requires
        ss1 == ss2,
        env1 == env2,
    ensures
        alloc_all(p, Seq::empty(), ss1, env1) == alloc_all(p, Seq::empty(), ss2, env2),
        alloc_left(p, Seq::empty(), ss1, env1) == alloc_left(p, Seq::empty(), ss2, env2),
        plan_of(ss1, env1) == plan_of(ss2, env2),
{
}

/// A loop whose bound fails to evaluate stops scheduling with that error;
/// the statements buffered before it have gone to the current window, and
/// nothing of the loop is scheduled.
pub proof fn law_failed_loop_bound(p: Plan, buf: Seq<usize>, expr: Expr, body: Vec<Statement>, env: EnvState)
    requires
        eval_spec(expr, env).0 is Err,
    ensures
        alloc_step(p, buf, Statement::For { expr, for_block: body }, env).0 == Err::<(Plan, Seq<usize>), AstError>(
            eval_spec(expr, env).0->Err_0,
        ),
        alloc_left(p, buf, seq![Statement::For { expr, for_block: body }], env) == failed_step_plan(p, buf),
{
    let ss = seq![Statement::For { expr, for_block: body }];
    assert(ss.drop_last() =~= Seq::<Statement>::empty());
}

/// A loop spreads its body over the widened window: every tick of
/// `[start, loop_end(end, n))` gets the body's statements appended, in
/// order; the window is then restored to what it was before the loop, and
/// the statements buffered before the loop went to that window only.
pub proof fn law_loop_body_replicated(p: Plan, buf: Seq<usize>, expr: Expr, body: Vec<Statement>, env: EnvState, n: int)
    requires
        p.wf(),
        eval_spec(expr, env).0 matches Ok(v) && loop_count(v) == Ok::<int, AstError>(n),
        loop_end(p.end, n) <= usize::MAX,
    ensures
        ({
            let (r, env1) = alloc_step(p, buf, Statement::For { expr, for_block: body }, env);
            &&& env1 == eval_spec(expr, env).1
            &&& r matches Ok((q, b)) && {
                &&& q.start == p.start
                &&& q.end == p.end
                &&& b.len() == 0
                &&& q.pool == p.pool + body@
                &&& forall|t: int| p.start <= t < loop_end(p.end, n) ==> {
                    &&& (#[trigger] q.frames[t]).len() >= body@.len()
                    &&& q.frames[t].subrange(q.frames[t].len() - body@.len(), q.frames[t].len() as int)
                        == index_run(p.pool.len() as int, body@.len() as int)
                }
                &&& forall|t: int| p.start <= t < p.end ==> #[trigger] q.frames[t] == (if t < p.frames.len() {
                    p.frames[t]
                } else {
                    Seq::empty()
                }) + buf + (if t < loop_end(p.end, n) {
                    index_run(p.pool.len() as int, body@.len() as int)
                } else {
                    Seq::empty()
                })
                &&& forall|k: int| 0 <= k < body@.len() ==> q.pool[#[trigger] (p.pool.len() + k)] == body@[k]
                &&& forall|t: int| 0 <= t < p.frames.len() && !(p.start <= t < loop_end(p.end, n)) && !(p.start <= t < p.end)
                    ==> #[trigger] q.frames[t] == p.frames[t]
            }
        }),
{
    let (r, env1) = alloc_step(p, buf, Statement::For { expr, for_block: body }, env);
    let f = flush(p.frames, p.start, p.end, buf);
    let body_idx = index_run(p.pool.len() as int, body@.len() as int);
    let f2 = flush(f, p.start, loop_end(p.end, n), body_idx);
    assert forall|t: int| p.start <= t < loop_end(p.end, n) implies {
        &&& (#[trigger] f2[t]).len() >= body@.len()
        &&& f2[t].subrange(f2[t].len() - body@.len(), f2[t].len() as int) == body_idx
    } by {
        if t < f.len() {
            assert(f2[t] == f[t] + body_idx);
            assert(f2[t].subrange(f2[t].len() - body@.len(), f2[t].len() as int) =~= body_idx);
        } else {
            assert(f2[t] == body_idx);
            assert(f2[t].subrange(0, f2[t].len() as int) =~= body_idx);
        }
    }
    assert forall|k: int| 0 <= k < body@.len() implies (p.pool + body@)[#[trigger] (p.pool.len() + k)] == body@[k] by {}
    assert forall|t: int| p.start <= t < p.end implies #[trigger] f2[t] == (if t < p.frames.len() {
        p.frames[t]
    } else {
        Seq::empty()
    }) + buf + (if t < loop_end(p.end, n) {
        body_idx
    } else {
        Seq::empty()
    }) by {
        if t < p.frames.len() {
            assert(f[t] == p.frames[t] + buf);
        } else {
            assert(f[t] =~= Seq::<usize>::empty() + buf);
        }
        if t < loop_end(p.end, n) {
            assert(f2[t] == f[t] + body_idx);
        } else {
            assert(f2[t] =~= f[t] + Seq::<usize>::empty());
        }
    }
}

/// The frames a marker advances by: its count for `#n`, none for `##`.
pub open spec fn marker_span(m: Statement) -> int {
    match m {
        Statement::Fps(tok) => marker_duration(tok) as int,
        _ => 0,
    }
}

/// Statements with no marker and no loop are only buffered: the plain ones
/// join the pool and the buffer in order, and frames and window stay.
proof fn lemma_unmarked_run(p: Plan, buf: Seq<usize>, q: Seq<Statement>, env: EnvState)
    requires
        forall|i: int| 0 <= i < q.len() ==> !is_marker(#[trigger] q[i]) && !(q[i] is For),
    ensures
        alloc_all(p, buf, q, env) == (
            Ok::<(Plan, Seq<usize>), AstError>((
                Plan { pool: p.pool + plain_of(q), ..p },
                buf + index_run(p.pool.len() as int, plain_of(q).len() as int),
            )),
            env,
        ),
    decreases q.len(),
{
    if q.len() == 0 {
        assert(p.pool + plain_of(q) =~= p.pool);
        assert(buf + index_run(p.pool.len() as int, 0) =~= buf);
    } else {
        let q0 = q.drop_last();
        assert forall|i: int| 0 <= i < q0.len() implies !is_marker(#[trigger] q0[i]) && !(q0[i] is For) by {
            assert(q0[i] == q[i]);
        }
        lemma_unmarked_run(p, buf, q0, env);
        let x = q.last();
        assert(!is_marker(q[q.len() - 1]) && !(q[q.len() - 1] is For));
        let n0 = plain_of(q0).len() as int;
        if x.is_plain() {
            assert(p.pool + plain_of(q) =~= (p.pool + plain_of(q0)).push(x));
            assert(buf + index_run(p.pool.len() as int, n0 + 1) =~= (buf + index_run(p.pool.len() as int, n0)).push(
                (p.pool.len() + n0) as usize,
            ));
        }
    }
}

/// Scheduling `a` then `c` is scheduling `a`, then `c` from where `a` left
/// off; an error in `a` ends it.
proof fn lemma_alloc_append(p: Plan, buf: Seq<usize>, a: Seq<Statement>, c: Seq<Statement>, env: EnvState)
    ensures
        alloc_all(p, buf, a + c, env) == match alloc_all(p, buf, a, env) {
            (Ok((p1, b1)), e1) => alloc_all(p1, b1, c, e1),
            (Err(e), e1) => (Err(e), e1),
        },
    decreases c.len(),
{
    if c.len() == 0 {
        assert(a + c =~= a);
    } else {
        lemma_alloc_append(p, buf, a, c.drop_last(), env);
        assert((a + c).drop_last() =~= a + c.drop_last());
        assert((a + c).last() == c.last());
    }
}

/// After a loop the window is the pre-loop one again: statements that
/// follow the loop, up to the next marker, are appended to every tick of
/// the pre-loop window (after what the loop put there) and to no other
/// tick; the marker then opens the window that starts where the pre-loop
/// window ended.
pub proof fn law_after_loop_window_restored(
    p: Plan,
    expr: Expr,
    body: Vec<Statement>,
    q: Seq<Statement>,
    marker: Statement,
    env: EnvState,
    n: int,
)
    requires
        p.wf(),
        forall|i: int| 0 <= i < q.len() ==> !is_marker(#[trigger] q[i]) && !(q[i] is For),
        is_marker(marker),
        eval_spec(expr, env).0 matches Ok(v) && loop_count(v) == Ok::<int, AstError>(n),
        loop_end(p.end, n) <= usize::MAX,
        p.end + marker_span(marker) <= usize::MAX,
    ensures
        ({
            let fs = Statement::For { expr, for_block: body };
            let after_loop = alloc_step(p, Seq::empty(), fs, env).0->Ok_0.0;
            let run = index_run((p.pool.len() + body@.len()) as int, plain_of(q).len() as int);
            let (r, _) = alloc_all(p, Seq::empty(), seq![fs] + q + seq![marker], env);
            r matches Ok((f, b)) && {
                &&& f.pool == p.pool + body@ + plain_of(q)
                &&& b.len() == 0
                &&& f.start == p.end
                &&& f.end == p.end + marker_span(marker)
                &&& forall|t: int| p.start <= t < p.end ==> #[trigger] f.frames[t] == if t < after_loop.frames.len() {
                    after_loop.frames[t] + run
                } else {
                    run
                }
                &&& forall|t: int| 0 <= t < after_loop.frames.len() && !(p.start <= t < p.end)
                    ==> #[trigger] f.frames[t] == after_loop.frames[t]
            }
        }),
{
    let fs = Statement::For { expr, for_block: body };
    law_loop_body_replicated(p, Seq::empty(), expr, body, env, n);
    let (r1, env1) = alloc_step(p, Seq::empty(), fs, env);
    let q1 = r1->Ok_0.0;
    assert(seq![fs].drop_last() =~= Seq::<Statement>::empty());
    assert(alloc_all(p, Seq::empty(), Seq::<Statement>::empty(), env) == (
        Ok::<(Plan, Seq<usize>), AstError>((p, Seq::<usize>::empty())),
        env,
    ));
    assert(alloc_all(p, Seq::empty(), seq![fs], env) == alloc_step(p, Seq::empty(), fs, env));
    lemma_alloc_append(p, Seq::empty(), seq![fs], q, env);
    lemma_unmarked_run(q1, Seq::empty(), q, env1);
    lemma_alloc_append(p, Seq::empty(), seq![fs] + q, seq![marker], env);
    let q2 = Plan { pool: q1.pool + plain_of(q), ..q1 };
    let b2 = Seq::<usize>::empty() + index_run(q1.pool.len() as int, plain_of(q).len() as int);
    assert(seq![marker].drop_last() =~= Seq::<Statement>::empty());
    assert(alloc_all(q2, b2, Seq::<Statement>::empty(), env1) == (Ok::<(Plan, Seq<usize>), AstError>((q2, b2)), env1));
    assert(alloc_all(q2, b2, seq![marker], env1) == alloc_step(q2, b2, marker, env1));
    assert(b2 =~= index_run((p.pool.len() + body@.len()) as int, plain_of(q).len() as int));
    assert(q2.pool =~= p.pool + body@ + plain_of(q));
}

/// Whether a statement is a frame marker, `#n` or `##`.
pub open spec fn is_marker(s: Statement) -> bool {
    s is Fps || s is FpsEnd
}

/// The window after a stream of statements without loops: `[0, 1)` at
/// first; `#n` moves it to the `n` ticks after it, `##` to the empty
/// window at its end.
pub open spec fn window_after(ss: Seq<Statement>) -> (int, int)
    decreases ss.len(),
{
    if ss.len() == 0 {
        (0, 1)
    } else {
        let (s, e) = window_after(ss.drop_last());
        match ss.last() {
            Statement::Fps(tok) => (e, e + marker_duration(tok)),
            Statement::FpsEnd(_) => (e, e),
            _ => (s, e),
        }
    }
}

/// The plain statements of a stream, in source order.
pub open spec fn plain_of(ss: Seq<Statement>) -> Seq<Statement>
    decreases ss.len(),
{
    if ss.len() == 0 {
        Seq::empty()
    } else if ss.last().is_plain() {
        plain_of(ss.drop_last()).push(ss.last())
    } else {
        plain_of(ss.drop_last())
    }
}

/// The positions, among the plain statements, of those written since the
/// last marker of the stream.
pub open spec fn pending(ss: Seq<Statement>) -> Seq<usize>
    decreases ss.len(),
{
    if ss.len() == 0 {
        Seq::empty()
    } else if is_marker(ss.last()) {
        Seq::empty()
    } else if ss.last().is_plain() {
        pending(ss.drop_last()).push(plain_of(ss.drop_last()).len() as usize)
    } else {
        pending(ss.drop_last())
    }
}

proof fn lemma_window_monotone(ss: Seq<Statement>, i: int, n: int)
    requires
        0 <= i <= n <= ss.len(),
    ensures
        window_after(ss.take(i)).0 <= window_after(ss.take(n)).0,
        window_after(ss.take(i)).1 <= window_after(ss.take(n)).1,
        window_after(ss.take(n)).0 <= window_after(ss.take(n)).1,
        window_after(ss.take(n)).1 >= 1,
    decreases n,
{
    if n > 0 {
        assert(ss.take(n).drop_last() =~= ss.take(n - 1));
        if i < n {
            lemma_window_monotone(ss, i, n - 1);
        } else {
            lemma_window_monotone(ss, n - 1, n - 1);
        }
    }
}

proof fn lemma_loop_free_prefix(ss: Seq<Statement>, env: EnvState, n: int)
    requires
        0 <= n <= ss.len(),
        forall|i: int| 0 <= i < ss.len() ==> !(#[trigger] ss[i] is For),
        window_after(ss).1 <= usize::MAX,
    ensures
        ({
            let (r, e) = alloc_all(Plan::initial(), Seq::empty(), ss.take(n), env);
            &&& e == env
            &&& r matches Ok((q, b)) && {
                &&& q.pool == plain_of(ss.take(n))
                &&& b == pending(ss.take(n))
                &&& q.start == window_after(ss.take(n)).0
                &&& q.end == window_after(ss.take(n)).1
                &&& q.frames.len() == q.start
                &&& forall|j: int, t: int|
                    0 <= j < n && is_marker(ss[j]) && window_after(ss.take(j)).0 <= t < window_after(ss.take(j)).1
                    ==> #[trigger] q.frames[t] == pending(#[trigger] ss.take(j))
            }
        }),
    decreases n,
{
    assert(ss.take(ss.len() as int) =~= ss);
    lemma_window_monotone(ss, n, ss.len() as int);
    if n == 0 {
        assert(ss.take(0) =~= Seq::<Statement>::empty());
        assert(Plan::initial().frames.len() == 0);
    } else {
        lemma_loop_free_prefix(ss, env, n - 1);
        let pre = ss.take(n - 1);
        let cur = ss.take(n);
        assert(cur.drop_last() =~= pre);
        assert(cur.last() == ss[n - 1]);
        let (r0, e0) = alloc_all(Plan::initial(), Seq::empty(), pre, env);
        let q0 = r0->Ok_0.0;
        let b0 = r0->Ok_0.1;
        let x = ss[n - 1];
        assert(!(x is For));
        assert(alloc_all(Plan::initial(), Seq::empty(), cur, env) == alloc_step(q0, b0, x, env));
        lemma_window_monotone(ss, n - 1, n);
        let (r1, _) = alloc_step(q0, b0, x, env);
        let q1 = r1->Ok_0.0;
        if is_marker(x) {
            let f = flush(q0.frames, q0.start, q0.end, b0);
            assert(q1.frames == f);
            assert forall|j: int, t: int|
                0 <= j < n && is_marker(ss[j]) && window_after(ss.take(j)).0 <= t < window_after(ss.take(j)).1
                implies #[trigger] q1.frames[t] == pending(#[trigger] ss.take(j)) by {
                if j < n - 1 {
                    assert(ss.take(j + 1).drop_last() =~= ss.take(j));
                    assert(ss.take(j + 1).last() == ss[j]);
                    lemma_window_monotone(ss, j + 1, n - 1);
                    lemma_window_monotone(ss, 0, j);
                    assert(ss.take(0) =~= Seq::<Statement>::empty());
                    assert(t < q0.start);
                    assert(f[t] == q0.frames[t]);
                    assert(q0.frames[t] == pending(ss.take(j)));
                } else {
                    assert(j == n - 1);
                    assert(ss.take(j) == pre);
                    assert(t >= q0.frames.len());
                    assert(f[t] == b0);
                }
            }
        }
    }
}

/// For a program without loops, scheduling evaluates nothing and cannot
/// fail (short of running past the largest frame index). The plan holds the
/// plain statements once, in source order; it covers exactly the ticks up
/// to the start of the last window, which the markers closed; and every
/// tick of the window that a marker closes lists exactly the plain
/// statements written since the previous marker, in source order.
pub proof fn law_loop_free_plan(ss: Seq<Statement>, env: EnvState)
    requires
        forall|i: int| 0 <= i < ss.len() ==> !(#[trigger] ss[i] is For),
        window_after(ss).1 <= usize::MAX,
    ensures
        plan_of(ss, env).1 == env,
        plan_of(ss, env).0 matches Ok(q) && {
            &&& q.pool == plain_of(ss)
            &&& q.frames.len() == window_after(ss).0
            &&& forall|j: int, t: int|
                0 <= j < ss.len() && is_marker(ss[j]) && window_after(ss.take(j)).0 <= t < window_after(ss.take(j)).1
                ==> #[trigger] q.frames[t] == pending(#[trigger] ss.take(j))
        },
{
    lemma_loop_free_prefix(ss, env, ss.len() as int);
    assert(ss.take(ss.len() as int) =~= ss);
}

proof fn lemma_loop_free_overflow(ss: Seq<Statement>, env: EnvState, n: int)
    requires
        0 <= n <= ss.len(),
        forall|i: int| 0 <= i < ss.len() ==> !(#[trigger] ss[i] is For),
        window_after(ss.take(n)).1 > usize::MAX,
    ensures
        alloc_all(Plan::initial(), Seq::empty(), ss.take(n), env).0 == Err::<(Plan, Seq<usize>), AstError>(
            AstError::TimelineOverflow,
        ),
    decreases n,
{
    assert(ss.take(0) =~= Seq::<Statement>::empty());
    let pre = ss.take(n - 1);
    assert(ss.take(n).drop_last() =~= pre);
    assert(ss.take(n).last() == ss[n - 1]);
    if window_after(pre).1 > usize::MAX {
        lemma_loop_free_overflow(ss, env, n - 1);
    } else {
        assert forall|i: int| 0 <= i < pre.len() implies !(#[trigger] pre[i] is For) by {
            assert(pre[i] == ss[i]);
        }
        lemma_loop_free_prefix(pre, env, pre.len() as int);
        assert(pre.take(pre.len() as int) =~= pre);
    }
}

/// The other side of the loop-free law: a program without loops whose
/// markers run the timeline past the largest frame index fails with
/// `TimelineOverflow`.
pub proof fn law_loop_free_overflow(ss: Seq<Statement>, env: EnvState)
    requires
        forall|i: int| 0 <= i < ss.len() ==> !(#[trigger] ss[i] is For),
        window_after(ss).1 > usize::MAX,
    ensures
        plan_of(ss, env).0 == Err::<Plan, AstError>(AstError::TimelineOverflow),
{
    assert(ss.take(ss.len() as int) =~= ss);
    lemma_loop_free_overflow(ss, env, ss.len() as int);
}

/// A loop whose widened window would run past the largest frame index
/// fails with `TimelineOverflow`, leaving only the pre-loop flush.
pub proof fn law_loop_overflow(p: Plan, buf: Seq<usize>, expr: Expr, body: Vec<Statement>, env: EnvState, n: int)
    requires
        eval_spec(expr, env).0 matches Ok(v) && loop_count(v) == Ok::<int, AstError>(n),
        loop_end(p.end, n) > usize::MAX,
    ensures
        alloc_step(p, buf, Statement::For { expr, for_block: body }, env).0 == Err::<(Plan, Seq<usize>), AstError>(
            AstError::TimelineOverflow,
        ),
        alloc_left(p, buf, seq![Statement::For { expr, for_block: body }], env) == failed_step_plan(p, buf),
{
    let ss = seq![Statement::For { expr, for_block: body }];
    assert(ss.drop_last() =~= Seq::<Statement>::empty());
}

} // verus!

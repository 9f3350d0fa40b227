use vstd::prelude::*;

use crate::ast::literal::LiteralValue;
use crate::ast::AstError;

verus! {

/// The bindings of every open scope, as one stack: binding `i` is named
/// `names[i]`, holds `values[i]` and belongs to the scope at depth
/// `depths[i]`. Depth 0 is the outermost scope.
pub ghost struct EnvState {
    pub names: Seq<Seq<char>>,
    pub values: Seq<LiteralValue>,
    pub depths: Seq<int>,
    pub depth: int,
}

impl EnvState {
    pub open spec fn wf(self) -> bool {
        &&& self.names.len() == self.values.len()
        &&& self.names.len() == self.depths.len()
        &&& self.depth >= 0
        &&& forall|i: int| 0 <= i < self.depths.len() ==> 0 <= #[trigger] self.depths[i] <= self.depth
        &&& forall|i: int, j: int| 0 <= i <= j < self.depths.len() ==> self.depths[i] <= self.depths[j]
    }

    /// Index of the innermost binding of `name`, or -1.
    pub open spec fn find(self, name: Seq<char>) -> int {
        find_last(self.names, name)
    }

    /// The value that `name` resolves to, walking outward from the
    /// innermost scope.
    pub open spec fn lookup(self, name: Seq<char>) -> Option<LiteralValue> {
        let i = self.find(name);
        if i >= 0 {
            Some(self.values[i])
        } else {
            None
        }
    }

    /// Whether the innermost scope itself binds `name`.
    pub open spec fn declared_here(self, name: Seq<char>) -> bool {
        exists|i: int| 0 <= i < self.names.len() && self.depths[i] == self.depth && #[trigger] self.names[i] == name
    }

    pub open spec fn declare(self, name: Seq<char>, v: LiteralValue) -> EnvState {
        EnvState {
            names: self.names.push(name),
            values: self.values.push(v),
            depths: self.depths.push(self.depth),
            depth: self.depth,
        }
    }

    /// Rebinds the innermost binding of `name`, which must exist.
    pub open spec fn assign(self, name: Seq<char>, v: LiteralValue) -> EnvState {
        EnvState { values: self.values.update(self.find(name), v), ..self }
    }

    /// Opens a new innermost scope.
    pub open spec fn push_scope(self) -> EnvState {
        EnvState { depth: self.depth + 1, ..self }
    }

    /// Closes the innermost scope and drops its bindings.
    pub open spec fn pop_scope(self) -> EnvState {
        let k = outer_len(self.depths, self.depth);
        EnvState {
            names: self.names.take(k),
            values: self.values.take(k),
            depths: self.depths.take(k),
            depth: self.depth - 1,
        }
    }
}

pub open spec fn find_last(names: Seq<Seq<char>>, name: Seq<char>) -> int
    decreases names.len(),
{
    if names.len() == 0 {
        -1
    } else if names.last() == name {
        names.len() - 1
    } else {
        find_last(names.drop_last(), name)
    }
}

/// Number of leading bindings whose depth is below `d`.
pub open spec fn outer_len(depths: Seq<int>, d: int) -> int
    decreases depths.len(),
{
    if depths.len() > 0 && depths.last() >= d {
        outer_len(depths.drop_last(), d)
    } else {
        depths.len() as int
    }
}

proof fn lemma_find_last(names: Seq<Seq<char>>, name: Seq<char>)
    ensures
        -1 <= find_last(names, name) < names.len(),
        find_last(names, name) >= 0 ==> names[find_last(names, name)] == name,
        find_last(names, name) < 0 ==> forall|i: int| 0 <= i < names.len() ==> names[i] != name,
        forall|i: int| find_last(names, name) < i < names.len() ==> names[i] != name,
    decreases names.len(),
{
    if names.len() > 0 && names.last() != name {
        lemma_find_last(names.drop_last(), name);
        assert forall|i: int| find_last(names, name) < i < names.len() implies names[i] != name by {
            if i < names.len() - 1 {
                assert(names[i] == names.drop_last()[i]);
            }
        }
    }
}

proof fn lemma_outer_len(depths: Seq<int>, d: int)
    requires
        forall|i: int, j: int| 0 <= i <= j < depths.len() ==> depths[i] <= depths[j],
    ensures
        0 <= outer_len(depths, d) <= depths.len(),
        forall|i: int| 0 <= i < outer_len(depths, d) ==> depths[i] < d,
        forall|i: int| outer_len(depths, d) <= i < depths.len() ==> depths[i] >= d,
    decreases depths.len(),
{
    if depths.len() > 0 && depths.last() >= d {
        let p = depths.drop_last();
        assert forall|i: int, j: int| 0 <= i <= j < p.len() implies p[i] <= p[j] by {
            assert(p[i] == depths[i] && p[j] == depths[j]);
        }
        lemma_outer_len(p, d);
        assert forall|i: int| 0 <= i < outer_len(depths, d) implies depths[i] < d by {
            assert(p[i] == depths[i]);
        }
        assert forall|i: int| outer_len(depths, d) <= i < depths.len() implies depths[i] >= d by {
            if i < p.len() {
                assert(p[i] == depths[i]);
            }
        }
    } else if depths.len() > 0 {
        assert forall|i: int| 0 <= i < depths.len() implies depths[i] < d by {
            assert(depths[i] <= depths[depths.len() - 1]);
        }
    }
}

/// A chain of lexical scopes, held as one stack of bindings.
pub struct Environment {
    names: Vec<String>,
    values: Vec<LiteralValue>,
    depths: Vec<usize>,
    depth: usize,
}

impl View for Environment {
    type V = EnvState;

    closed spec fn view(&self) -> EnvState {
        EnvState {
            names: self.names@.map_values(|s: String| s@),
            values: self.values@,
            depths: self.depths@.map_values(|d: usize| d as int),
            depth: self.depth as int,
        }
    }
}

impl Environment {
    /// The state of an environment with one empty scope.
    pub open spec fn new_state() -> EnvState {
        EnvState { names: Seq::empty(), values: Seq::empty(), depths: Seq::empty(), depth: 0 }
    }

    /// An environment with one empty scope.
    pub fn new() -> (r: Environment)
        ensures
            r@.wf(),
            r@ == Environment::new_state(),
    {
        proof {
            assert(Seq::<String>::empty().map_values(|s: String| s@) =~= Seq::<Seq<char>>::empty());
            assert(Seq::<usize>::empty().map_values(|d: usize| d as int) =~= Seq::<int>::empty());
        }
        Environment { names: Vec::new(), values: Vec::new(), depths: Vec::new(), depth: 0 }
    }

    /// Number of scopes that enclose the innermost one.
    pub fn depth(&self) -> (r: usize)
        ensures
            r == self@.depth,
    {
        self.depth
    }

    fn find(&self, name: &String) -> (r: Option<usize>)
        requires
            self@.wf(),
        ensures
            self@.find(name@) >= 0 <==> r is Some,
            r matches Some(i) ==> i == self@.find(name@) && i < self.names.len(),
    {
        proof {
            lemma_find_last(self@.names, name@);
        }
        let mut i = self.names.len();
        while i > 0
            invariant
                i <= self.names.len(),
                self@.wf(),
                -1 <= self@.find(name@) < self.names@.len(),
                self@.find(name@) >= 0 ==> self@.names[self@.find(name@)] == name@,
                forall|j: int| self@.find(name@) < j < self.names@.len() ==> self@.names[j] != name@,
                self@.find(name@) < 0 ==> forall|j: int| 0 <= j < self.names@.len() ==> self@.names[j] != name@,
                forall|j: int| i <= j < self.names@.len() ==> self@.names[j] != name@,
            decreases i,
        {
            i = i - 1;
            if self.names[i] == *name {
                assert(self@.names[i as int] == name@);
                return Some(i);
            }
        }
        None
    }

    /// The value bound to `name` in the innermost scope that binds it.
    pub fn get(&self, name: String) -> (r: Result<LiteralValue, AstError>)
        requires
            self@.wf(),
        ensures
            r == match self@.lookup(name@) {
                Some(v) => Ok(v),
                None => Err(AstError::NotDeclared(name)),
            },
    {
        match self.find(&name) {
            Some(i) => Ok(self.values[i].clone()),
            None => Err(AstError::NotDeclared(name)),
        }
    }

    /// Binds `name` in the innermost scope; a name that this scope already
    /// binds is refused, one of an enclosing scope is shadowed.
    pub fn declare(&mut self, name: String, value: LiteralValue) -> (r: Result<(), AstError>)
        requires
            old(self)@.wf(),
        ensures
            final(self)@.wf(),
            old(self)@.declared_here(name@) ==> r == Err::<(), AstError>(AstError::AlreadyDeclared(name))
                && final(self)@ == old(self)@,
            !old(self)@.declared_here(name@) ==> r == Ok::<(), AstError>(()) && final(self)@ == old(self)@.declare(name@, value),
    {
        let n = self.names.len();
        let mut i: usize = 0;
        while i < n
            invariant
                n == self.names.len(),
                self@.wf(),
                i <= n,
                forall|j: int| 0 <= j < i ==> !(self@.depths[j] == self@.depth && self@.names[j] == name@),
            decreases n - i,
        {
            if self.depths[i] == self.depth && self.names[i] == name {
                assert(self@.names[i as int] == name@ && self@.depths[i as int] == self@.depth);
                return Err(AstError::AlreadyDeclared(name));
            }
            i = i + 1;
        }
        let ghost before = self@;
        self.names.push(name);
        self.values.push(value);
        self.depths.push(self.depth);
        proof {
            assert(self@.names =~= before.names.push(name@));
            assert(self@.depths =~= before.depths.push(before.depth));
        }
        Ok(())
    }

    /// Rebinds `name` where it is bound innermost.
    pub fn assign(&mut self, name: String, value: LiteralValue) -> (r: Result<(), AstError>)
        requires
            old(self)@.wf(),
        ensures
            final(self)@.wf(),
            old(self)@.lookup(name@) is None ==> r == Err::<(), AstError>(AstError::NotDeclared(name))
                && final(self)@ == old(self)@,
            old(self)@.lookup(name@) is Some ==> r == Ok::<(), AstError>(()) && final(self)@ == old(self)@.assign(name@, value),
    {
        match self.find(&name) {
            Some(i) => {
                self.values.set(i, value);
                Ok(())
            },
            None => Err(AstError::NotDeclared(name)),
        }
    }

    /// Opens a new innermost scope.
    pub fn push_scope(&mut self)
        requires
            old(self)@.wf(),
            old(self)@.depth < usize::MAX,
        ensures
            final(self)@.wf(),
            final(self)@ == old(self)@.push_scope(),
    {
        self.depth = self.depth + 1;
    }

    /// Closes the innermost scope; its bindings become unreachable.
    pub fn pop_scope(&mut self)
        requires
            old(self)@.wf(),
            old(self)@.depth > 0,
        ensures
            final(self)@.wf(),
            final(self)@ == old(self)@.pop_scope(),
    {
        proof {
            lemma_outer_len(self@.depths, self@.depth);
        }
        let ghost d = self@.depth;
        while self.depths.len() > 0 && self.depths[self.depths.len() - 1] >= self.depth
            invariant
                self.names.len() == self.values.len(),
                self.names.len() == self.depths.len(),
                self.depth == d,
                old(self)@.wf(),
                outer_len(self@.depths, d) == outer_len(old(self)@.depths, d),
                self@.names == old(self)@.names.take(self.names.len() as int),
                self@.values == old(self)@.values.take(self.names.len() as int),
                self@.depths == old(self)@.depths.take(self.names.len() as int),
                self.names.len() <= old(self).names.len(),
            decreases self.depths.len(),
        {
            let ghost prev = self@;
            self.names.pop();
            self.values.pop();
            self.depths.pop();
            proof {
                let k = self.names.len() as int;
                assert(prev.depths.last() >= d);
                assert(self@.depths =~= prev.depths.drop_last());
                assert(outer_len(prev.depths, d) == outer_len(prev.depths.drop_last(), d));
                assert(self@.names =~= old(self)@.names.take(k));
                assert(self@.values =~= old(self)@.values.take(k));
                assert(self@.depths =~= old(self)@.depths.take(k));
            }
        }
        self.depth = self.depth - 1;
    }
}

/// Declaring a name twice in one scope is refused: after a declaration
/// the innermost scope binds the name.
pub proof fn law_declared_name_is_taken(env: EnvState, name: Seq<char>, v: LiteralValue)
    requires
        env.wf(),
    ensures
        env.declare(name, v).declared_here(name),
{
    let e2 = env.declare(name, v);
    assert(e2.names[env.names.len() as int] == name);
    assert(e2.depths[env.names.len() as int] == e2.depth);
}

/// A child scope binds nothing of its own, so any name may be declared in
/// it again; the new binding shadows the enclosing one until the scope
/// closes, and closing it brings the enclosing binding back.
pub proof fn law_child_scope_shadows(env: EnvState, name: Seq<char>, v: LiteralValue)
    requires
        env.wf(),
    ensures
        !env.push_scope().declared_here(name),
        env.push_scope().declare(name, v).lookup(name) == Some(v),
        env.push_scope().declare(name, v).pop_scope() == env,
{
    let child = env.push_scope();
    let e2 = child.declare(name, v);
    let n = env.names.len() as int;
    assert(e2.names.drop_last() =~= env.names);
    assert(find_last(e2.names, name) == n);
    lemma_outer_len(env.depths, env.depth + 1);
    lemma_outer_len_all(env.depths, env.depth + 1);
    assert(e2.depths.drop_last() =~= env.depths);
    assert(outer_len(e2.depths, e2.depth) == outer_len(env.depths, e2.depth));
    assert(e2.names.take(n) =~= env.names);
    assert(e2.values.take(n) =~= env.values);
    assert(e2.depths.take(n) =~= env.depths);
}

/// With every depth below `d`, nothing is dropped.
proof fn lemma_outer_len_all(depths: Seq<int>, d: int)
    requires
        forall|i: int| 0 <= i < depths.len() ==> depths[i] < d,
    ensures
        outer_len(depths, d) == depths.len(),
{
}

} // verus!

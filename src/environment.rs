use vstd::prelude::*;
use crate::error::{RuntimeError, RuntimeErrorKind};
use crate::token::Token;
use crate::value::{ClockFunction, Value, Val};

verus! {

/// A name bound to a value.
pub struct Binding {
    pub name: String,
    pub value: Value,
}

/// The model of an environment: every binding in the chain of scopes, the
/// outermost (global) scope first, and where each scope's bindings start.
pub struct EnvModel {
    pub bindings: Seq<(Seq<char>, Val)>,
    pub starts: Seq<nat>,
}

/// The last position at or after `lo` that binds `k`, or -1.
pub open spec fn find_from(bs: Seq<(Seq<char>, Val)>, k: Seq<char>, lo: int) -> int
    decreases bs.len(),
{
    if bs.len() <= lo || bs.len() == 0 {
        -1
    } else if bs.last().0 == k {
        bs.len() - 1
    } else {
        find_from(bs.drop_last(), k, lo)
    }
}

/// Start of the innermost scope.
pub open spec fn innermost_start(m: EnvModel) -> int {
    if m.starts.len() == 0 {
        0
    } else {
        m.starts.last() as int
    }
}

/// The value of `k`: its binding in the innermost scope that binds it.
pub open spec fn env_get(m: EnvModel, k: Seq<char>) -> Option<Val> {
    let j = find_from(m.bindings, k, 0);
    if j >= 0 {
        Some(m.bindings[j].1)
    } else {
        None
    }
}

/// Assignment overwrites the binding of `k` in the innermost scope that binds
/// it; `None` when no scope does.
pub open spec fn env_assign(m: EnvModel, k: Seq<char>, v: Val) -> Option<EnvModel> {
    let j = find_from(m.bindings, k, 0);
    if j >= 0 {
        Some(EnvModel { bindings: m.bindings.update(j, (k, v)), starts: m.starts })
    } else {
        None
    }
}

/// Definition binds `k` in the innermost scope, overwriting a binding of `k`
/// there, and never touching an enclosing scope.
pub open spec fn env_define(m: EnvModel, k: Seq<char>, v: Val) -> EnvModel {
    let j = find_from(m.bindings, k, innermost_start(m));
    if j >= 0 {
        EnvModel { bindings: m.bindings.update(j, (k, v)), starts: m.starts }
    } else {
        EnvModel { bindings: m.bindings.push((k, v)), starts: m.starts }
    }
}

/// A new, empty innermost scope.
pub open spec fn env_push(m: EnvModel) -> EnvModel {
    EnvModel { bindings: m.bindings, starts: m.starts.push(m.bindings.len()) }
}

/// Leaves the innermost scope: its bindings go, the enclosing ones stay.
pub open spec fn env_pop(m: EnvModel) -> EnvModel {
    EnvModel { bindings: m.bindings.subrange(0, innermost_start(m)), starts: m.starts.drop_last() }
}

pub open spec fn binding_views(bs: Seq<Binding>) -> Seq<(Seq<char>, Val)> {
    bs.map_values(|b: Binding| (b.name@, b.value@))
}

/// A chain of scopes, each mapping names to values; the outermost is the
/// global scope.
pub struct Environment {
    bindings: Vec<Binding>,
    starts: Vec<usize>,
}

impl View for Environment {
    type V = EnvModel;

    closed spec fn view(&self) -> EnvModel {
        EnvModel { bindings: binding_views(self.bindings@), starts: self.starts@.map_values(|s: usize| s as nat) }
    }
}

/// The scope starts are in order, the first is 0, and none is past the end.
pub open spec fn env_wf(m: EnvModel) -> bool {
    &&& m.starts.len() >= 1
    &&& m.starts[0] == 0
    &&& forall|i: int, j: int| 0 <= i <= j < m.starts.len() ==> m.starts[i] <= m.starts[j]
    &&& forall|i: int| 0 <= i < m.starts.len() ==> m.starts[i] <= m.bindings.len()
}

pub proof fn lemma_find_from(bs: Seq<(Seq<char>, Val)>, k: Seq<char>, lo: int)
    ensures
        -1 <= find_from(bs, k, lo) < bs.len(),
        find_from(bs, k, lo) >= 0 ==> find_from(bs, k, lo) >= lo && bs[find_from(bs, k, lo)].0 == k,
    decreases bs.len(),
{
    if bs.len() > lo && bs.len() > 0 && bs.last().0 != k {
        lemma_find_from(bs.drop_last(), k, lo);
    }
}

impl Environment {
    /// An environment holding only an empty global scope.
    pub fn new() -> (r: Environment)
        ensures
            r@.bindings.len() == 0,
            r@.starts == seq![0nat],
            env_wf(r@),
    {
        let mut starts: Vec<usize> = Vec::new();
        starts.push(0);
        let r = Environment { bindings: Vec::new(), starts };
        assert(r@.bindings =~= Seq::<(Seq<char>, Val)>::empty());
        r
    }

    /// The global environment, with the native `clock` bound.
    pub fn new_global() -> (r: Environment)
        ensures
            env_wf(r@),
            r@ == global_env(),
            env_get(r@, clock_name()) == Some(Val::Native(ClockFunction)),
    {
        let mut env = Environment::new();
        proof {
            reveal_strlit("clock");
        }
        env.define_native("clock", ClockFunction);
        assert("clock"@ =~= clock_name());
        assert(env@.bindings.last().0 == clock_name());
        assert(env@.bindings =~= global_env().bindings);
        env
    }

    /// A new scope nested in `enclosing`.
    pub fn with_enclosing(enclosing: Environment) -> (r: Environment)
        requires
            env_wf(enclosing@),
        ensures
            r@ == env_push(enclosing@),
            env_wf(r@),
    {
        let mut env = enclosing;
        env.push_scope();
        env
    }

    pub fn push_scope(&mut self)
        requires
            env_wf(old(self)@),
        ensures
            final(self)@ == env_push(old(self)@),
            env_wf(final(self)@),
    {
        let n = self.bindings.len();
        self.starts.push(n);
        assert(self@.bindings == old(self)@.bindings);
        assert(self@.starts =~= env_push(old(self)@).starts);
    }

    /// Leaves the innermost scope; the global scope is never left.
    pub fn pop_scope(&mut self)
        requires
            env_wf(old(self)@),
            old(self)@.starts.len() >= 2,
        ensures
            final(self)@ == env_pop(old(self)@),
            env_wf(final(self)@),
    {
        let k = self.starts.len() - 1;
        let start = self.starts[k];
        self.starts.pop();
        self.bindings.truncate(start);
        assert(self@.bindings =~= env_pop(old(self)@).bindings);
        assert(self@.starts =~= env_pop(old(self)@).starts);
    }

    /// The position of the last binding of `name` at or after `lo`.
    fn find(&self, name: &String, lo: usize) -> (r: Option<usize>)
        ensures
            r matches Some(j) ==> j as int == find_from(self@.bindings, name@, lo as int),
            r is None ==> find_from(self@.bindings, name@, lo as int) == -1,
    {
        let mut i = self.bindings.len();
        assert(self@.bindings.subrange(0, i as int) =~= self@.bindings);
        while i > lo
            invariant
                i <= self.bindings@.len(),
                find_from(self@.bindings, name@, lo as int) == find_from(
                    self@.bindings.subrange(0, i as int),
                    name@,
                    lo as int,
                ),
            decreases i,
        {
            let ghost sub = self@.bindings.subrange(0, i as int);
            assert(sub.last() == (self.bindings@[i - 1].name@, self.bindings@[i - 1].value@));
            if self.bindings[i - 1].name.eq(name) {
                return Some(i - 1);
            }
            assert(sub.drop_last() =~= self@.bindings.subrange(0, i - 1));
            i = i - 1;
        }
        proof {
            if i == self.bindings@.len() {
                assert(self@.bindings.subrange(0, i as int) =~= self@.bindings);
            }
        }
        None
    }

    /// Binds `name` in the innermost scope, overwriting a binding of `name`
    /// there; enclosing scopes are untouched.
    pub fn define(&mut self, name: String, value: Value)
        requires
            env_wf(old(self)@),
        ensures
            final(self)@ == env_define(old(self)@, name@, value@),
            env_wf(final(self)@),
    {
        let start = self.starts[self.starts.len() - 1];
        let ghost k = name@;
        let ghost v = value@;
        match self.find(&name, start) {
            Some(j) => {
                proof {
                    lemma_find_from(self@.bindings, name@, start as int);
                }
                self.bindings.set(j, Binding { name, value });
                assert(self@.bindings =~= old(self)@.bindings.update(j as int, (k, v)));
            },
            None => {
                self.bindings.push(Binding { name, value });
                assert(self@.bindings =~= old(self)@.bindings.push((k, v)));
            },
        }
    }

    /// Binds a native function in the innermost scope.
    pub fn define_native(&mut self, name: &str, function: ClockFunction)
        requires
            env_wf(old(self)@),
        ensures
            final(self)@ == env_define(old(self)@, name@, Val::Native(function)),
            env_wf(final(self)@),
    {
        self.define(name.to_string(), Value::Native(function));
    }

    /// The value of the variable `name` names, from the innermost scope that
    /// binds it; `UndefinedVariable` when no scope does.
    pub fn get(&self, name: &Token) -> (r: Result<Value, RuntimeError>)
        ensures
            r matches Ok(v) ==> env_get(self@, name.lexeme@) == Some(v@),
            r is Err ==> env_get(self@, name.lexeme@) is None && r == Err::<Value, RuntimeError>(
                RuntimeError { token: Some(*name), kind: RuntimeErrorKind::UndefinedVariable },
            ),
    {
        proof {
            lemma_find_from(self@.bindings, name.lexeme@, 0);
        }
        match self.find(&name.lexeme, 0) {
            Some(j) => Ok(self.bindings[j].value.duplicate()),
            None => Err(RuntimeError::new(name, RuntimeErrorKind::UndefinedVariable)),
        }
    }

    /// Overwrites the binding of the variable `name` names in the innermost
    /// scope that binds it; `UndefinedVariable`, with nothing changed, when
    /// no scope does: assignment never creates a binding.
    pub fn assign(&mut self, name: &Token, value: Value) -> (r: Result<(), RuntimeError>)
        requires
            env_wf(old(self)@),
        ensures
            env_wf(final(self)@),
            r is Ok <==> env_assign(old(self)@, name.lexeme@, value@) is Some,
            r is Ok ==> Some(final(self)@) == env_assign(old(self)@, name.lexeme@, value@),
            r is Err ==> final(self)@ == old(self)@ && r == Err::<(), RuntimeError>(
                RuntimeError { token: Some(*name), kind: RuntimeErrorKind::UndefinedVariable },
            ),
    {
        let ghost v = value@;
        match self.find(&name.lexeme, 0) {
            Some(j) => {
                proof {
                    lemma_find_from(self@.bindings, name.lexeme@, 0);
                }
                self.bindings.set(j, Binding { name: name.lexeme.clone(), value });
                assert(self@.bindings =~= old(self)@.bindings.update(j as int, (name.lexeme@, v)));
                Ok(())
            },
            None => Err(RuntimeError::new(name, RuntimeErrorKind::UndefinedVariable)),
        }
    }
}

/// The global environment: only the native `clock` is bound.
pub open spec fn global_env() -> EnvModel {
    EnvModel { bindings: seq![(clock_name(), Val::Native(ClockFunction))], starts: seq![0nat] }
}

pub open spec fn clock_name() -> Seq<char> {
    seq!['c', 'l', 'o', 'c', 'k']
}

} // verus!

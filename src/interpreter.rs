use vstd::prelude::*;
use crate::environment::{
    Environment, EnvModel, global_env, innermost_start, lemma_find_from, env_assign, env_define, env_get, env_pop, env_push, env_wf,
};
use crate::error::{RuntimeError, RuntimeErrorKind};
use crate::expr::Expr;
use crate::grammar::{lemma_stmts_eqv_index, stmt_eqv, stmts_eqv};
use crate::number::{
    Number, add_spec, decimal_value, digits_value, div_spec, is_digit, mul_spec, neg_spec, num_lt,
    sub_spec, MANTISSA_LIMIT,
};
use crate::stmt::Stmt;
use crate::token::{Token, TokenType, digits_end};
use crate::value::{Val, Value, truthy, value_text, values_equal, string_of};

verus! {

/// The result of evaluating an expression: the environment afterwards (an
/// assignment may have changed it, also on the way to an error) and the
/// value or the error.
pub struct ExprOutcome {
    pub env: EnvModel,
    pub result: Result<Val, RuntimeError>,
}

pub open spec fn rt(t: Token, kind: RuntimeErrorKind) -> RuntimeError {
    RuntimeError { token: Some(t), kind }
}

pub open spec fn ok_val(env: EnvModel, v: Val) -> ExprOutcome {
    ExprOutcome { env, result: Ok(v) }
}

pub open spec fn err_val(env: EnvModel, e: RuntimeError) -> ExprOutcome {
    ExprOutcome { env, result: Err(e) }
}

pub open spec fn num_result(o: Option<Number>) -> Result<Val, RuntimeErrorKind> {
    match o {
        Some(n) => Ok(Val::Number(n)),
        None => Err(RuntimeErrorKind::NumberOverflow),
    }
}

/// Arithmetic and comparison on two numbers.
pub open spec fn arith(op: TokenType, x: Number, y: Number) -> Result<Val, RuntimeErrorKind> {
    match op {
        TokenType::PLUS => num_result(add_spec(x, y)),
        TokenType::MINUS => num_result(sub_spec(x, y)),
        TokenType::STAR => num_result(mul_spec(x, y)),
        TokenType::SLASH => if y.numer() == 0 {
            Err(RuntimeErrorKind::DivisionByZero)
        } else {
            num_result(div_spec(x, y))
        },
        TokenType::GREATER => Ok(Val::Boolean(num_lt(y, x))),
        TokenType::GREATER_EQUAL => Ok(Val::Boolean(!num_lt(x, y))),
        TokenType::LESS => Ok(Val::Boolean(num_lt(x, y))),
        TokenType::LESS_EQUAL => Ok(Val::Boolean(!num_lt(y, x))),
        _ => Err(RuntimeErrorKind::UnsupportedOperator),
    }
}

pub open spec fn is_arith_op(op: TokenType) -> bool {
    op == TokenType::PLUS || op == TokenType::MINUS || op == TokenType::STAR || op == TokenType::SLASH
        || op == TokenType::GREATER || op == TokenType::GREATER_EQUAL || op == TokenType::LESS
        || op == TokenType::LESS_EQUAL
}

/// The value of a binary operator on two values: equality on any pair;
/// `+` joins the texts when either side is text; the rest take numbers.
pub open spec fn binary_value(op: TokenType, l: Val, r: Val) -> Result<Val, RuntimeErrorKind> {
    if op == TokenType::EQUAL_EQUAL {
        Ok(Val::Boolean(values_equal(l, r)))
    } else if op == TokenType::BANG_EQUAL {
        Ok(Val::Boolean(!values_equal(l, r)))
    } else if op == TokenType::PLUS && (l is Text || r is Text) {
        Ok(Val::Text(value_text(l) + value_text(r)))
    } else {
        match (l, r) {
            (Val::Number(x), Val::Number(y)) => arith(op, x, y),
            _ => if is_arith_op(op) {
                Err(RuntimeErrorKind::OperandTypeError)
            } else {
                Err(RuntimeErrorKind::UnsupportedOperator)
            },
        }
    }
}

/// The value of a unary operator: `-` negates a number, `!` negates truthiness.
pub open spec fn unary_value(op: TokenType, x: Val) -> Result<Val, RuntimeErrorKind> {
    match op {
        TokenType::MINUS => match x {
            Val::Number(n) => num_result(neg_spec(n)),
            _ => Err(RuntimeErrorKind::OperandTypeError),
        },
        TokenType::BANG => Ok(Val::Boolean(!truthy(x))),
        _ => Err(RuntimeErrorKind::UnsupportedOperator),
    }
}

/// Only `false` and `nil` are falsy: `!` gives `true` on exactly those two
/// values, and `false` on every other one (any number, zero included, any
/// text, the empty text included, `true`, a native function).
pub proof fn lemma_bang_truthiness(v: Val)
    ensures
        unary_value(TokenType::BANG, v) == Ok::<Val, RuntimeErrorKind>(
            Val::Boolean(v == Val::Nil || v == Val::Boolean(false)),
        ),
{
}

/// Evaluation of an expression in an environment.
///
/// `and` and `or` give a boolean, the truthiness of the operand that decided,
/// not the operand itself: a deliberate choice, so that a logical
/// expression is always a valid `if` condition.
pub open spec fn eval(e: Expr, env: EnvModel) -> ExprOutcome
    decreases e,
{
    match e {
        Expr::Literal(l) => ok_val(env, l.value@),
        Expr::Variable(v) => match env_get(env, v.name.lexeme@) {
            Some(x) => ok_val(env, x),
            None => err_val(env, rt(v.name, RuntimeErrorKind::UndefinedVariable)),
        },
        Expr::Assign(name, ve) => {
            let o = eval(*ve, env);
            match o.result {
                Err(_) => o,
                Ok(x) => match env_assign(o.env, name.lexeme@, x) {
                    Some(env2) => ok_val(env2, x),
                    None => err_val(o.env, rt(name, RuntimeErrorKind::UndefinedVariable)),
                },
            }
        },
        Expr::Unary(u) => {
            let o = eval(*u.right, env);
            match o.result {
                Err(_) => o,
                Ok(x) => match unary_value(u.operator.token_type, x) {
                    Ok(y) => ok_val(o.env, y),
                    Err(k) => err_val(o.env, rt(u.operator, k)),
                },
            }
        },
        Expr::Binary(b) => {
            let lo = eval(*b.left, env);
            match lo.result {
                Err(_) => lo,
                Ok(x) => {
                    let ro = eval(*b.right, lo.env);
                    match ro.result {
                        Err(_) => ro,
                        Ok(y) => match binary_value(b.operator.token_type, x, y) {
                            Ok(z) => ok_val(ro.env, z),
                            Err(k) => err_val(ro.env, rt(b.operator, k)),
                        },
                    }
                },
            }
        },
        Expr::Logical(l) => {
            let op = l.operator.token_type;
            let lo = eval(*l.left, env);
            match lo.result {
                Err(_) => lo,
                Ok(x) => if op == TokenType::OR && truthy(x) {
                    ok_val(lo.env, Val::Boolean(true))
                } else if op == TokenType::AND && !truthy(x) {
                    ok_val(lo.env, Val::Boolean(false))
                } else if op != TokenType::OR && op != TokenType::AND {
                    err_val(lo.env, rt(l.operator, RuntimeErrorKind::UnsupportedOperator))
                } else {
                    let ro = eval(*l.right, lo.env);
                    match ro.result {
                        Err(_) => ro,
                        Ok(y) => ok_val(ro.env, Val::Boolean(truthy(y))),
                    }
                },
            }
        },
        Expr::Grouping(g) => eval(*g.expression, env),
        Expr::Conditional { condition, then_branch, else_branch } => {
            let co = eval(*condition, env);
            match co.result {
                Err(_) => co,
                Ok(Val::Boolean(true)) => eval(*then_branch, co.env),
                Ok(Val::Boolean(false)) => match else_branch {
                    Some(eb) => eval(*eb, co.env),
                    None => ok_val(co.env, Val::Nil),
                },
                Ok(_) => err_val(
                    co.env,
                    RuntimeError { token: None, kind: RuntimeErrorKind::ConditionTypeError },
                ),
            }
        },
    }
}

/// What a program can observe and change: the environment, the lines printed
/// so far, and the input lines not read yet.
pub struct State {
    pub env: EnvModel,
    pub out: Seq<Seq<char>>,
    pub input: Seq<Seq<char>>,
}

/// The result of executing a statement: the state afterwards (what happened
/// before an error stays) and whether it completed or stopped on an error.
pub struct Outcome {
    pub state: State,
    pub result: Result<(), RuntimeError>,
}

pub open spec fn with_env(st: State, env: EnvModel) -> State {
    State { env, out: st.out, input: st.input }
}

pub open spec fn done(st: State) -> Outcome {
    Outcome { state: st, result: Ok(()) }
}

pub open spec fn failed(st: State, e: RuntimeError) -> Outcome {
    Outcome { state: st, result: Err(e) }
}

/// The number an input line writes, read as decimal floating-point text:
/// an optional sign `+` or `-`; digits with an optional `.` and more digits,
/// at least one digit in all; then optionally `e` or `E`, an optional sign
/// and exponent digits. Its value is `decimal_value` of the digits, scaled
/// by the exponent less the number of fraction digits; an exponent whose
/// digits reach `MANTISSA_LIMIT` is not read.
pub open spec fn input_number(s: Seq<char>) -> Option<Number> {
    let i: int = if s.len() > 0 && (s[0] == '+' || s[0] == '-') { 1 } else { 0 };
    let neg = i == 1 && s[0] == '-';
    let j = digits_end(s, i);
    let has_point = j < s.len() && s[j] == '.';
    let fs = if has_point { j + 1 } else { j };
    let fe = if has_point { digits_end(s, j + 1) } else { j };
    let ds = s.subrange(i, j) + s.subrange(fs, fe);
    let f = fe - fs;
    if ds.len() == 0 {
        None
    } else if fe == s.len() {
        decimal_value(neg, digits_value(ds), -f)
    } else if s[fe] == 'e' || s[fe] == 'E' {
        let es = fe + 1;
        let eneg = es < s.len() && s[es] == '-';
        let xs = if es < s.len() && (s[es] == '+' || s[es] == '-') { es + 1 } else { es };
        let xe = digits_end(s, xs);
        let x = digits_value(s.subrange(xs, xe));
        if xe == xs || xe != s.len() || x >= MANTISSA_LIMIT {
            None
        } else {
            decimal_value(neg, digits_value(ds), (if eneg { -(x as int) } else { x as int }) - f)
        }
    } else {
        None
    }
}

/// The characters of Unicode's `White_Space` property.
pub open spec fn is_white_space(c: char) -> bool {
    ||| '\u{9}' <= c <= '\u{d}'
    ||| c == ' '
    ||| c == '\u{85}'
    ||| c == '\u{a0}'
    ||| c == '\u{1680}'
    ||| '\u{2000}' <= c <= '\u{200a}'
    ||| c == '\u{2028}'
    ||| c == '\u{2029}'
    ||| c == '\u{202f}'
    ||| c == '\u{205f}'
    ||| c == '\u{3000}'
}

/// The first position at or after `i` that holds no white space.
pub open spec fn trim_start(s: Seq<char>, i: int) -> int
    decreases s.len() - i,
{
    if 0 <= i < s.len() && is_white_space(s[i]) {
        trim_start(s, i + 1)
    } else {
        i
    }
}

/// The end of `s[..j]` once the white space at its end is dropped.
pub open spec fn trim_end(s: Seq<char>, j: int) -> int
    decreases j,
{
    if 0 < j <= s.len() && is_white_space(s[j - 1]) {
        trim_end(s, j - 1)
    } else {
        j
    }
}

/// `s` without its leading and trailing white space.
pub open spec fn trimmed(s: Seq<char>) -> Seq<char> {
    let a = trim_start(s, 0);
    let b = trim_end(s, s.len() as int);
    if a >= b {
        Seq::empty()
    } else {
        s.subrange(a, b)
    }
}

/// Relies on `str::trim`: the string without leading and trailing white
/// space, white space being Unicode's `White_Space` property.
#[verifier::external_body]
fn trim_of(s: &str) -> (r: String)
    ensures
        r@ == trimmed(s@),
{
    String::from(s.trim())
}

/// The value of an input line once trimmed: its number when it writes one,
/// else the text.
pub open spec fn trimmed_input_value(t: Seq<char>) -> Val {
    match input_number(t) {
        Some(n) => Val::Number(n),
        None => Val::Text(t),
    }
}

/// The value an input line gives: the line loses its leading and trailing
/// white space, then gives its number when it writes one, else its text.
pub open spec fn input_value(line: Seq<char>) -> Val {
    trimmed_input_value(trimmed(line))
}

/// Execution of a statement. `fuel` bounds the iterations of each `while`
/// loop: a loop that would run more often fails with `StepLimitExceeded`.
pub open spec fn exec_stmt(s: Stmt, st: State, fuel: nat) -> Outcome
    decreases fuel, s, 1int,
{
    match s {
        Stmt::Expression { expression } => {
            let o = eval(expression, st.env);
            match o.result {
                Ok(_) => done(with_env(st, o.env)),
                Err(e) => failed(with_env(st, o.env), e),
            }
        },
        Stmt::Print { expression } => {
            let o = eval(expression, st.env);
            match o.result {
                Ok(v) => done(State { env: o.env, out: st.out.push(value_text(v)), input: st.input }),
                Err(e) => failed(with_env(st, o.env), e),
            }
        },
        Stmt::Var { name, initializer } => match initializer {
            None => done(with_env(st, env_define(st.env, name@, Val::Nil))),
            Some(init) => {
                let o = eval(init, st.env);
                match o.result {
                    Ok(v) => done(with_env(st, env_define(o.env, name@, v))),
                    Err(e) => failed(with_env(st, o.env), e),
                }
            },
        },
        Stmt::Block(v) => {
            let inner = exec_seq(v@, 0, with_env(st, env_push(st.env)), fuel);
            Outcome { state: with_env(inner.state, env_pop(inner.state.env)), result: inner.result }
        },
        Stmt::If { keyword, condition, then_branch, else_branch } => {
            let o = eval(condition, st.env);
            let st1 = with_env(st, o.env);
            match o.result {
                Err(e) => failed(st1, e),
                Ok(Val::Boolean(true)) => exec_stmt(*then_branch, st1, fuel),
                Ok(Val::Boolean(false)) => match else_branch {
                    Some(eb) => exec_stmt(*eb, st1, fuel),
                    None => done(st1),
                },
                Ok(_) => failed(st1, rt(keyword, RuntimeErrorKind::ConditionTypeError)),
            }
        },
        Stmt::While { .. } => exec_while(s, st, fuel),
        Stmt::Input { name } => {
            let line = if st.input.len() > 0 { st.input[0] } else { Seq::empty() };
            let rest = if st.input.len() > 0 { st.input.drop_first() } else { st.input };
            match env_assign(st.env, name.lexeme@, input_value(line)) {
                Some(env2) => done(State { env: env2, out: st.out, input: rest }),
                None => failed(
                    State { env: st.env, out: st.out, input: rest },
                    rt(name, RuntimeErrorKind::UndefinedVariable),
                ),
            }
        },
    }
}

/// A `while` loop: while its condition is truthy, run the body.
///
/// The conditions of `if` and `while` differ on purpose: `if` takes only a
/// boolean and fails with `ConditionTypeError` on anything else, while
/// `while` goes by truthiness, so that `while (n)` runs until `n` is `nil`
/// or `false`. Programs that branch on a value's presence write `while`.
pub open spec fn exec_while(w: Stmt, st: State, fuel: nat) -> Outcome
    decreases fuel, w, 0int,
{
    match w {
        Stmt::While { keyword, condition, body } => {
            let o = eval(condition, st.env);
            let st1 = with_env(st, o.env);
            match o.result {
                Err(e) => failed(st1, e),
                Ok(x) => if !truthy(x) {
                    done(st1)
                } else if fuel == 0 {
                    failed(st1, rt(keyword, RuntimeErrorKind::StepLimitExceeded))
                } else {
                    let bo = exec_stmt(*body, st1, fuel);
                    match bo.result {
                        Err(_) => bo,
                        Ok(_) => exec_while(w, bo.state, (fuel - 1) as nat),
                    }
                },
            }
        },
        _ => done(st),
    }
}

/// The statements of `ss` from position `i` on, in order, up to the first error.
pub open spec fn exec_seq(ss: Seq<Stmt>, i: int, st: State, fuel: nat) -> Outcome
    decreases fuel, ss, ss.len() - i,
{
    if i < 0 || i >= ss.len() {
        done(st)
    } else {
        let o = exec_stmt(ss[i], st, fuel);
        match o.result {
            Err(_) => o,
            Ok(_) => exec_seq(ss, i + 1, o.state, fuel),
        }
    }
}

/// A block: its statements run in a new innermost scope, which is left
/// afterwards, whether they completed or stopped on an error.
pub open spec fn exec_block(v: Seq<Stmt>, st: State, fuel: nat) -> Outcome {
    let inner = exec_seq(v, 0, with_env(st, env_push(st.env)), fuel);
    Outcome { state: with_env(inner.state, env_pop(inner.state.env)), result: inner.result }
}

/// Evaluating an expression keeps the scopes and the number of bindings:
/// assignment only overwrites.
pub proof fn lemma_eval_keeps_scopes(e: Expr, env: EnvModel)
    ensures
        eval(e, env).env.starts == env.starts,
        eval(e, env).env.bindings.len() == env.bindings.len(),
    decreases e,
{
    match e {
        Expr::Assign(name, ve) => {
            lemma_eval_keeps_scopes(*ve, env);
            lemma_find_from(eval(*ve, env).env.bindings, name.lexeme@, 0);
        },
        Expr::Unary(u) => lemma_eval_keeps_scopes(*u.right, env),
        Expr::Binary(b) => {
            lemma_eval_keeps_scopes(*b.left, env);
            lemma_eval_keeps_scopes(*b.right, eval(*b.left, env).env);
        },
        Expr::Logical(l) => {
            lemma_eval_keeps_scopes(*l.left, env);
            lemma_eval_keeps_scopes(*l.right, eval(*l.left, env).env);
        },
        Expr::Grouping(g) => lemma_eval_keeps_scopes(*g.expression, env),
        Expr::Conditional { condition, then_branch, else_branch } => {
            lemma_eval_keeps_scopes(*condition, env);
            let env1 = eval(*condition, env).env;
            lemma_eval_keeps_scopes(*then_branch, env1);
            match else_branch {
                Some(eb) => lemma_eval_keeps_scopes(*eb, env1),
                None => {},
            }
        },
        _ => {},
    }
}

pub open spec fn keeps_scopes(before: EnvModel, after: EnvModel) -> bool {
    &&& after.starts == before.starts
    &&& after.bindings.len() >= before.bindings.len()
}

/// A statement keeps the chain of scopes, whether it completes or stops on
/// an error; it may only add bindings to the innermost scope.
pub proof fn lemma_exec_keeps_scopes(s: Stmt, st: State, fuel: nat)
    ensures
        keeps_scopes(st.env, exec_stmt(s, st, fuel).state.env),
    decreases fuel, s, 1int,
{
    match s {
        Stmt::Expression { expression } => lemma_eval_keeps_scopes(expression, st.env),
        Stmt::Print { expression } => lemma_eval_keeps_scopes(expression, st.env),
        Stmt::Var { name, initializer } => match initializer {
            None => lemma_find_from(st.env.bindings, name@, innermost_start(st.env)),
            Some(init) => {
                lemma_eval_keeps_scopes(init, st.env);
                let env1 = eval(init, st.env).env;
                lemma_find_from(env1.bindings, name@, innermost_start(env1));
            },
        },
        Stmt::Block(v) => lemma_block_leaves_no_bindings(v@, st, fuel),
        Stmt::If { condition, then_branch, else_branch, .. } => {
            lemma_eval_keeps_scopes(condition, st.env);
            let st1 = with_env(st, eval(condition, st.env).env);
            lemma_exec_keeps_scopes(*then_branch, st1, fuel);
            match else_branch {
                Some(eb) => lemma_exec_keeps_scopes(*eb, st1, fuel),
                None => {},
            }
        },
        Stmt::While { .. } => lemma_while_keeps_scopes(s, st, fuel),
        Stmt::Input { name } => lemma_find_from(st.env.bindings, name.lexeme@, 0),
    }
}

proof fn lemma_while_keeps_scopes(w: Stmt, st: State, fuel: nat)
    ensures
        keeps_scopes(st.env, exec_while(w, st, fuel).state.env),
    decreases fuel, w, 0int,
{
    match w {
        Stmt::While { condition, body, .. } => {
            lemma_eval_keeps_scopes(condition, st.env);
            let st1 = with_env(st, eval(condition, st.env).env);
            if fuel > 0 {
                lemma_exec_keeps_scopes(*body, st1, fuel);
                let bo = exec_stmt(*body, st1, fuel);
                lemma_while_keeps_scopes(w, bo.state, (fuel - 1) as nat);
            }
        },
        _ => {},
    }
}

proof fn lemma_seq_keeps_scopes(ss: Seq<Stmt>, i: int, st: State, fuel: nat)
    ensures
        keeps_scopes(st.env, exec_seq(ss, i, st, fuel).state.env),
    decreases fuel, ss, ss.len() - i,
{
    if 0 <= i < ss.len() {
        lemma_exec_keeps_scopes(ss[i], st, fuel);
        let o = exec_stmt(ss[i], st, fuel);
        lemma_seq_keeps_scopes(ss, i + 1, o.state, fuel);
    }
}

/// Leaving a block restores its enclosing environment's shape: the same
/// scopes and exactly as many bindings as before the block, whether its
/// statements completed or one stopped on an error. What the block defined
/// is gone; only assignments to enclosing bindings remain.
pub proof fn lemma_block_leaves_no_bindings(v: Seq<Stmt>, st: State, fuel: nat)
    ensures
        exec_block(v, st, fuel).state.env.starts == st.env.starts,
        exec_block(v, st, fuel).state.env.bindings.len() == st.env.bindings.len(),
    decreases fuel, v, v.len() + 1,
{
    let pushed = with_env(st, env_push(st.env));
    lemma_seq_keeps_scopes(v, 0, pushed, fuel);
    let inner = exec_seq(v, 0, pushed, fuel);
    assert(inner.state.env.starts.drop_last() =~= st.env.starts);
}

/// Statements that are the same tree, up to the identity of their blocks'
/// vectors, execute the same way.
pub proof fn lemma_exec_eqv(s1: Stmt, s2: Stmt, st: State, fuel: nat)
    requires
        stmt_eqv(s1, s2),
    ensures
        exec_stmt(s1, st, fuel) == exec_stmt(s2, st, fuel),
    decreases fuel, s1, 1int,
{
    match s1 {
        Stmt::Block(v1) => {
            if let Stmt::Block(v2) = s2 {
                let pushed = with_env(st, env_push(st.env));
                lemma_seq_eqv(v1@, v2@, 0, pushed, fuel);
            }
        },
        Stmt::If { condition, then_branch: t1, else_branch: e1, .. } => {
            if let Stmt::If { then_branch: t2, else_branch: e2, .. } = s2 {
                let st1 = with_env(st, eval(condition, st.env).env);
                lemma_exec_eqv(*t1, *t2, st1, fuel);
                if let Some(x) = e1 {
                    lemma_exec_eqv(*x, *e2->0, st1, fuel);
                }
            }
        },
        Stmt::While { .. } => lemma_while_eqv(s1, s2, st, fuel),
        _ => {},
    }
}

proof fn lemma_while_eqv(w1: Stmt, w2: Stmt, st: State, fuel: nat)
    requires
        stmt_eqv(w1, w2),
        w1 is While,
    ensures
        exec_while(w1, st, fuel) == exec_while(w2, st, fuel),
    decreases fuel, w1, 0int,
{
    if let Stmt::While { condition, body: b1, .. } = w1 {
        if let Stmt::While { body: b2, .. } = w2 {
            let st1 = with_env(st, eval(condition, st.env).env);
            if fuel > 0 {
                lemma_exec_eqv(*b1, *b2, st1, fuel);
                let bo = exec_stmt(*b1, st1, fuel);
                lemma_while_eqv(w1, w2, bo.state, (fuel - 1) as nat);
            }
        }
    }
}

proof fn lemma_seq_eqv(v1: Seq<Stmt>, v2: Seq<Stmt>, i: int, st: State, fuel: nat)
    requires
        v1.len() == v2.len(),
        stmts_eqv(v1, v2, v1.len() as int),
        0 <= i,
    ensures
        exec_seq(v1, i, st, fuel) == exec_seq(v2, i, st, fuel),
    decreases fuel, v1, v1.len() - i,
{
    if i < v1.len() {
        lemma_stmts_eqv_index(v1, v2, v1.len() as int, i);
        lemma_exec_eqv(v1[i], v2[i], st, fuel);
        let o = exec_stmt(v1[i], st, fuel);
        lemma_seq_eqv(v1, v2, i + 1, o.state, fuel);
    }
}

/// Top-level runs of statement sequences that are pairwise the same trees
/// are the same.
pub proof fn lemma_run_eqv(v1: Seq<Stmt>, v2: Seq<Stmt>, i: int, st: State, fuel: nat)
    requires
        v1.len() == v2.len(),
        stmts_eqv(v1, v2, v1.len() as int),
        0 <= i,
    ensures
        run_all(v1, i, st, fuel) == run_all(v2, i, st, fuel),
    decreases v1.len() - i,
{
    if i < v1.len() {
        lemma_stmts_eqv_index(v1, v2, v1.len() as int, i);
        lemma_exec_eqv(v1[i], v2[i], st, fuel);
        let o = exec_stmt(v1[i], st, fuel);
        lemma_run_eqv(v1, v2, i + 1, o.state, fuel);
    }
}

/// Top-level statements from position `i` on: an error ends only its own
/// statement, is collected, and execution goes on with the next statement.
pub open spec fn run_all(ss: Seq<Stmt>, i: int, st: State, fuel: nat) -> (State, Seq<RuntimeError>)
    decreases ss.len() - i,
{
    if i < 0 || i >= ss.len() {
        (st, Seq::empty())
    } else {
        let o = exec_stmt(ss[i], st, fuel);
        let (st2, errs) = run_all(ss, i + 1, o.state, fuel);
        match o.result {
            Ok(_) => (st2, errs),
            Err(e) => (st2, seq![e] + errs),
        }
    }
}

pub open spec fn result_view(r: Result<Value, RuntimeError>) -> Result<Val, RuntimeError> {
    match r {
        Ok(v) => Ok(v@),
        Err(e) => Err(e),
    }
}

pub open spec fn strings_view(v: Seq<String>) -> Seq<Seq<char>> {
    v.map_values(|s: String| s@)
}

fn num_result_of(o: Option<Number>) -> (r: Result<Value, RuntimeErrorKind>)
    ensures
        result_kind_view(r) == num_result(o),
{
    match o {
        Some(n) => Ok(Value::Number(n)),
        None => Err(RuntimeErrorKind::NumberOverflow),
    }
}

pub open spec fn result_kind_view(r: Result<Value, RuntimeErrorKind>) -> Result<Val, RuntimeErrorKind> {
    match r {
        Ok(v) => Ok(v@),
        Err(k) => Err(k),
    }
}

fn arith_of(op: TokenType, x: &Number, y: &Number) -> (r: Result<Value, RuntimeErrorKind>)
    ensures
        result_kind_view(r) == arith(op, *x, *y),
{
    match op {
        TokenType::PLUS => num_result_of(x.add(y)),
        TokenType::MINUS => num_result_of(x.sub(y)),
        TokenType::STAR => num_result_of(x.mul(y)),
        TokenType::SLASH => if y.is_zero() {
            Err(RuntimeErrorKind::DivisionByZero)
        } else {
            num_result_of(x.div(y))
        },
        TokenType::GREATER => Ok(Value::Boolean(y.num_lt(x))),
        TokenType::GREATER_EQUAL => Ok(Value::Boolean(!x.num_lt(y))),
        TokenType::LESS => Ok(Value::Boolean(x.num_lt(y))),
        TokenType::LESS_EQUAL => Ok(Value::Boolean(!y.num_lt(x))),
        _ => Err(RuntimeErrorKind::UnsupportedOperator),
    }
}

/// A binary operator applied to two values.
pub fn binary_op(op: TokenType, l: &Value, r: &Value) -> (res: Result<Value, RuntimeErrorKind>)
    ensures
        result_kind_view(res) == binary_value(op, l@, r@),
{
    if op == TokenType::EQUAL_EQUAL {
        return Ok(Value::Boolean(l.equals(r)));
    }
    if op == TokenType::BANG_EQUAL {
        return Ok(Value::Boolean(!l.equals(r)));
    }
    let is_text = match (l, r) {
        (Value::Text(_), _) => true,
        (_, Value::Text(_)) => true,
        _ => false,
    };
    if op == TokenType::PLUS && is_text {
        let mut out: Vec<char> = Vec::new();
        l.push_text(&mut out);
        r.push_text(&mut out);
        let joined = string_of(&out, 0, out.len());
        assert(out@.subrange(0, out@.len() as int) =~= out@);
        return Ok(Value::Text(joined));
    }
    match (l, r) {
        (Value::Number(x), Value::Number(y)) => arith_of(op, x, y),
        _ => {
            let arith_op = op == TokenType::PLUS || op == TokenType::MINUS || op == TokenType::STAR
                || op == TokenType::SLASH || op == TokenType::GREATER || op == TokenType::GREATER_EQUAL
                || op == TokenType::LESS || op == TokenType::LESS_EQUAL;
            if arith_op {
                Err(RuntimeErrorKind::OperandTypeError)
            } else {
                Err(RuntimeErrorKind::UnsupportedOperator)
            }
        },
    }
}

/// A unary operator applied to a value.
pub fn unary_op(op: TokenType, x: &Value) -> (res: Result<Value, RuntimeErrorKind>)
    ensures
        result_kind_view(res) == unary_value(op, x@),
{
    match op {
        TokenType::MINUS => match x {
            Value::Number(n) => num_result_of(n.neg()),
            _ => Err(RuntimeErrorKind::OperandTypeError),
        },
        TokenType::BANG => Ok(Value::Boolean(!x.is_truthy())),
        _ => Err(RuntimeErrorKind::UnsupportedOperator),
    }
}

/// The value an input line gives: the line loses its leading and trailing
/// white space, then gives its number when it writes one, else its text.
pub fn input_value_of(line: &String) -> (r: Value)
    ensures
        r@ == input_value(line@),
{
    let t = trim_of(line.as_str());
    trimmed_value_of(&t)
}

fn trimmed_value_of(line: &String) -> (r: Value)
    ensures
        r@ == trimmed_input_value(line@),
{
    let cs = crate::value::chars_of(line.as_str());
    match read_number(&cs) {
        Some(n) => Value::Number(n),
        None => Value::Text(line.clone()),
    }
}

proof fn lemma_all_digits(s: Seq<char>, a: int, b: int, ds: Seq<char>)
    requires
        0 <= a <= b <= s.len(),
        b == digits_end(s, a),
        ds == s.subrange(a, b),
    ensures
        forall|x: int| 0 <= x < ds.len() ==> is_digit(#[trigger] ds[x]),
{
    crate::token::lemma_digits_end(s, a);
    assert forall|x: int| 0 <= x < ds.len() implies is_digit(#[trigger] ds[x]) by {
        assert(ds[x] == s[a + x]);
    }
}

/// The number an input line writes; see `input_number`.
#[verifier::rlimit(80)]
fn read_number(cs: &Vec<char>) -> (r: Option<Number>)
    ensures
        r == input_number(cs@),
{
    let ghost s = cs@;
    let n = cs.len();
    let i: usize = if n > 0 && (cs[0] == '+' || cs[0] == '-') { 1 } else { 0 };
    let neg = i == 1 && cs[0] == '-';
    proof {
        crate::token::lemma_digits_end(s, i as int);
    }
    let j = crate::token::digits_end_of(cs, i);
    let has_point = j < n && cs[j] == '.';
    let fs: usize = if has_point { j + 1 } else { j };
    proof {
        crate::token::lemma_digits_end(s, fs as int);
    }
    let fe: usize = if has_point { crate::token::digits_end_of(cs, j + 1) } else { j };
    let mut ds: Vec<char> = Vec::new();
    crate::token::copy_range(cs, i, j, &mut ds);
    let ghost int_part = ds@;
    crate::token::copy_range(cs, fs, fe, &mut ds);
    proof {
        lemma_all_digits(s, i as int, j as int, s.subrange(i as int, j as int));
        if has_point {
            lemma_all_digits(s, fs as int, fe as int, s.subrange(fs as int, fe as int));
        }
        assert(ds@ == s.subrange(i as int, j as int) + s.subrange(fs as int, fe as int));
        assert forall|x: int| 0 <= x < ds@.len() implies is_digit(#[trigger] ds@[x]) by {
            if x < j - i {
                assert(ds@[x] == s.subrange(i as int, j as int)[x]);
            } else {
                assert(ds@[x] == s.subrange(fs as int, fe as int)[x - (j - i)]);
            }
        }
    }
    let f: usize = fe - fs;
    if ds.len() == 0 {
        return None;
    }
    if fe == n {
        return Number::from_decimal_text(neg, &ds, -(f as i128));
    }
    if cs[fe] == 'e' || cs[fe] == 'E' {
        let es = fe + 1;
        let eneg = es < n && cs[es] == '-';
        let xs: usize = if es < n && (cs[es] == '+' || cs[es] == '-') { es + 1 } else { es };
        proof {
            crate::token::lemma_digits_end(s, xs as int);
        }
        let xe = crate::token::digits_end_of(cs, xs);
        if xe == xs || xe != n {
            return None;
        }
        let mut xd: Vec<char> = Vec::new();
        crate::token::copy_range(cs, xs, xe, &mut xd);
        proof {
            lemma_all_digits(s, xs as int, xe as int, xd@);
        }
        match crate::number::digits_below_limit(&xd) {
            None => {
                return None;
            },
            Some(x) => {
                let sx: i128 = if eneg { -(x as i128) } else { x as i128 };
                return Number::from_decimal_text(neg, &ds, sx - f as i128);
            },
        }
    }
    None
}

/// The tree-walking evaluator.
pub struct Interpreter {
    environment: Environment,
    output: Vec<String>,
    input: Vec<String>,
    input_pos: usize,
    errors: Vec<RuntimeError>,
    step_limit: u64,
}

/// The largest iteration limit: in effect, none.
pub const NO_STEP_LIMIT: u64 = 0xffff_ffff_ffff_ffff;

impl Interpreter {
    pub closed spec fn wf(&self) -> bool {
        &&& env_wf(self.environment@)
        &&& self.input_pos <= self.input@.len()
    }

    /// The program-visible state.
    pub closed spec fn state(&self) -> State {
        State {
            env: self.environment@,
            out: strings_view(self.output@),
            input: strings_view(self.input@.subrange(self.input_pos as int, self.input@.len() as int)),
        }
    }

    /// The runtime errors reported so far, in order.
    pub closed spec fn reported(&self) -> Seq<RuntimeError> {
        self.errors@
    }

    /// The iteration limit of each `while` loop.
    pub closed spec fn fuel(&self) -> nat {
        self.step_limit as nat
    }

    /// An interpreter with the global environment (natives bound), no input
    /// lines, and no iteration limit in effect.
    pub fn new() -> (r: Interpreter)
        ensures
            r.wf(),
            r.state().env == global_env(),
            r.state().out.len() == 0,
            r.state().input.len() == 0,
            r.reported().len() == 0,
            r.fuel() == NO_STEP_LIMIT,
    {
        Interpreter::with_input(Vec::new())
    }

    /// An interpreter whose `input` statements read the given lines in order.
    pub fn with_input(lines: Vec<String>) -> (r: Interpreter)
        ensures
            r.wf(),
            r.state().env == global_env(),
            r.state().out.len() == 0,
            r.state().input == strings_view(lines@),
            r.reported().len() == 0,
            r.fuel() == NO_STEP_LIMIT,
    {
        let environment = Environment::new_global();
        let r = Interpreter {
            environment,
            output: Vec::new(),
            input: lines,
            input_pos: 0,
            errors: Vec::new(),
            step_limit: NO_STEP_LIMIT,
        };
        assert(r.input@.subrange(0, r.input@.len() as int) =~= r.input@);
        assert(strings_view(r.output@) =~= Seq::<Seq<char>>::empty());
        r
    }

    /// Sets the iteration limit of each `while` loop.
    pub fn set_step_limit(&mut self, limit: u64)
        ensures
            final(self).fuel() == limit,
            final(self).state() == old(self).state(),
            final(self).reported() == old(self).reported(),
            old(self).wf() ==> final(self).wf(),
    {
        self.step_limit = limit;
    }

    /// The lines printed so far.
    pub fn output(&self) -> (r: &Vec<String>)
        ensures
            strings_view(r@) == self.state().out,
    {
        &self.output
    }

    /// The runtime errors reported so far, in order.
    pub fn runtime_errors(&self) -> (r: &Vec<RuntimeError>)
        ensures
            r@ == self.reported(),
    {
        &self.errors
    }

    /// Evaluates an expression in the current environment.
    pub fn evaluate(&mut self, e: &Expr) -> (r: Result<Value, RuntimeError>)
        requires
            old(self).wf(),
        ensures
            final(self).wf(),
            eval(*e, old(self).state().env) == (ExprOutcome { env: final(self).state().env, result: result_view(r) }),
            final(self).state().out == old(self).state().out,
            final(self).state().input == old(self).state().input,
            final(self).reported() == old(self).reported(),
            final(self).fuel() == old(self).fuel(),
            final(self).state().env.starts == old(self).state().env.starts,
        decreases e,
    {
        match e {
            Expr::Literal(l) => Ok(l.value.duplicate()),
            Expr::Variable(v) => self.environment.get(&v.name),
            Expr::Assign(name, ve) => {
                let x = self.evaluate(ve)?;
                let stored = x.duplicate();
                self.environment.assign(name, stored)?;
                Ok(x)
            },
            Expr::Unary(u) => {
                let x = self.evaluate(&u.right)?;
                match unary_op(u.operator.token_type, &x) {
                    Ok(y) => Ok(y),
                    Err(k) => Err(RuntimeError::new(&u.operator, k)),
                }
            },
            Expr::Binary(b) => {
                let x = self.evaluate(&b.left)?;
                let y = self.evaluate(&b.right)?;
                match binary_op(b.operator.token_type, &x, &y) {
                    Ok(z) => Ok(z),
                    Err(k) => Err(RuntimeError::new(&b.operator, k)),
                }
            },
            Expr::Logical(l) => {
                let op = l.operator.token_type;
                let x = self.evaluate(&l.left)?;
                if op == TokenType::OR && x.is_truthy() {
                    return Ok(Value::Boolean(true));
                }
                if op == TokenType::AND && !x.is_truthy() {
                    return Ok(Value::Boolean(false));
                }
                if op != TokenType::OR && op != TokenType::AND {
                    return Err(RuntimeError::new(&l.operator, RuntimeErrorKind::UnsupportedOperator));
                }
                let y = self.evaluate(&l.right)?;
                Ok(Value::Boolean(y.is_truthy()))
            },
            Expr::Grouping(g) => self.evaluate(&g.expression),
            Expr::Conditional { condition, then_branch, else_branch } => {
                let c = self.evaluate(condition)?;
                match c {
                    Value::Boolean(true) => self.evaluate(then_branch),
                    Value::Boolean(false) => match else_branch {
                        Some(eb) => self.evaluate(eb),
                        None => Ok(Value::Nil),
                    },
                    _ => Err(RuntimeError::at_no_token(RuntimeErrorKind::ConditionTypeError)),
                }
            },
        }
    }

    fn execute(&mut self, s: &Stmt, fuel: u64) -> (r: Result<(), RuntimeError>)
        requires
            old(self).wf(),
        ensures
            final(self).wf(),
            exec_stmt(*s, old(self).state(), fuel as nat) == (Outcome { state: final(self).state(), result: r }),
            final(self).reported() == old(self).reported(),
            final(self).fuel() == old(self).fuel(),
            final(self).state().env.starts == old(self).state().env.starts,
        decreases fuel, s, 1int,
    {
        match s {
            Stmt::Expression { expression } => {
                self.evaluate(expression)?;
                Ok(())
            },
            Stmt::Print { expression } => {
                let v = self.evaluate(expression)?;
                let text = v.stringify();
                let ghost before = self.output@;
                self.output.push(text);
                assert(strings_view(self.output@) =~= strings_view(before).push(text@));
                Ok(())
            },
            Stmt::Var { name, initializer } => {
                let v = match initializer {
                    Some(init) => self.evaluate(init)?,
                    None => Value::Nil,
                };
                self.environment.define(name.clone(), v);
                Ok(())
            },
            Stmt::Block(statements) => self.execute_block(statements, fuel),
            Stmt::If { keyword, condition, then_branch, else_branch } => {
                let c = self.evaluate(condition)?;
                match c {
                    Value::Boolean(true) => self.execute(then_branch, fuel),
                    Value::Boolean(false) => match else_branch {
                        Some(eb) => self.execute(eb, fuel),
                        None => Ok(()),
                    },
                    _ => Err(RuntimeError::new(keyword, RuntimeErrorKind::ConditionTypeError)),
                }
            },
            Stmt::While { keyword, condition, body } => {
                let mut remaining = fuel;
                loop
                    invariant
                        self.wf(),
                        remaining <= fuel,
                        exec_while(*s, self.state(), remaining as nat) == exec_while(
                            *s,
                            old(self).state(),
                            fuel as nat,
                        ),
                        *s == (Stmt::While { keyword: *keyword, condition: *condition, body: *body }),
                        self.reported() == old(self).reported(),
                        self.fuel() == old(self).fuel(),
                        self.state().env.starts == old(self).state().env.starts,
                    decreases remaining,
                {
                    let c = self.evaluate(condition)?;
                    if !c.is_truthy() {
                        return Ok(());
                    }
                    if remaining == 0 {
                        return Err(RuntimeError::new(keyword, RuntimeErrorKind::StepLimitExceeded));
                    }
                    self.execute(body, remaining)?;
                    remaining = remaining - 1;
                }
            },
            Stmt::Input { name } => {
                let ghost rest = self.state().input;
                let line = if self.input_pos < self.input.len() {
                    let l = self.input[self.input_pos].clone();
                    self.input_pos = self.input_pos + 1;
                    l
                } else {
                    String::new()
                };
                proof {
                    if rest.len() > 0 {
                        assert(self.state().input =~= rest.drop_first());
                    }
                }
                let v = input_value_of(&line);
                match self.environment.assign(name, v) {
                    Ok(()) => Ok(()),
                    Err(e) => Err(e),
                }
            },
        }
    }

    fn execute_seq(&mut self, statements: &Vec<Stmt>, fuel: u64) -> (r: Result<(), RuntimeError>)
        requires
            old(self).wf(),
        ensures
            final(self).wf(),
            exec_seq(statements@, 0, old(self).state(), fuel as nat) == (Outcome {
                state: final(self).state(),
                result: r,
            }),
            final(self).reported() == old(self).reported(),
            final(self).fuel() == old(self).fuel(),
            final(self).state().env.starts == old(self).state().env.starts,
        decreases fuel, statements, 1int,
    {
        let mut i: usize = 0;
        while i < statements.len()
            invariant
                self.wf(),
                i <= statements@.len(),
                exec_seq(statements@, i as int, self.state(), fuel as nat) == exec_seq(
                    statements@,
                    0,
                    old(self).state(),
                    fuel as nat,
                ),
                self.reported() == old(self).reported(),
                self.fuel() == old(self).fuel(),
                self.state().env.starts == old(self).state().env.starts,
            decreases statements@.len() - i,
        {
            assert(decreases_to!(statements => statements@[i as int]));
            self.execute(&statements[i], fuel)?;
            i = i + 1;
        }
        Ok(())
    }

    /// Executes statements in a new innermost scope, and leaves the scope
    /// afterwards, also when a statement stopped on an error.
    pub fn execute_block(&mut self, statements: &Vec<Stmt>, fuel: u64) -> (r: Result<(), RuntimeError>)
        requires
            old(self).wf(),
        ensures
            final(self).wf(),
            exec_block(statements@, old(self).state(), fuel as nat) == (Outcome {
                state: final(self).state(),
                result: r,
            }),
            final(self).reported() == old(self).reported(),
            final(self).fuel() == old(self).fuel(),
            final(self).state().env.starts == old(self).state().env.starts,
        decreases fuel, statements, 2int,
    {
        self.environment.push_scope();
        let r = self.execute_seq(statements, fuel);
        self.environment.pop_scope();
        r
    }

    /// Runs a program: each top-level statement in turn. A runtime error ends
    /// only its own statement; it is reported and the next statement runs.
    pub fn interpret(&mut self, statements: &[Stmt])
        requires
            old(self).wf(),
        ensures
            final(self).wf(),
            final(self).state() == run_all(statements@, 0, old(self).state(), old(self).fuel()).0,
            final(self).reported() == old(self).reported() + run_all(
                statements@,
                0,
                old(self).state(),
                old(self).fuel(),
            ).1,
            final(self).fuel() == old(self).fuel(),
    {
        let mut i: usize = 0;
        while i < statements.len()
            invariant
                self.wf(),
                i <= statements@.len(),
                run_all(statements@, i as int, self.state(), self.fuel()).0 == run_all(
                    statements@,
                    0,
                    old(self).state(),
                    old(self).fuel(),
                ).0,
                self.reported() + run_all(statements@, i as int, self.state(), self.fuel()).1
                    == old(self).reported() + run_all(statements@, 0, old(self).state(), old(self).fuel()).1,
                self.fuel() == old(self).fuel(),
            decreases statements@.len() - i,
        {
            let ghost before = self.reported();
            let ghost st = self.state();
            let r = self.execute(&statements[i], self.step_limit);
            match r {
                Ok(()) => {},
                Err(e) => {
                    self.errors.push(e);
                },
            }
            proof {
                let rest = run_all(statements@, i + 1, self.state(), self.fuel()).1;
                if r is Err {
                    assert(self.reported() + rest =~= before + (seq![r->Err_0] + rest));
                }
            }
            i = i + 1;
        }
    }
}

} // verus!

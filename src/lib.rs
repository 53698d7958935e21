//! A small dynamically typed scripting language: a scanner that turns source
//! text into tokens, a recursive-descent parser that turns tokens into
//! statements, lexically scoped environments, and a tree-walking evaluator.
use vstd::prelude::*;

pub mod number;
pub mod value;
pub mod native_fn;
pub mod token;
pub mod expr;
pub mod stmt;
pub mod grammar;
pub mod parser;
pub mod environment;
pub mod error;
pub mod interpreter;
pub mod astprinter;

use crate::environment::global_env;
use crate::grammar::program_at;
use crate::interpreter::{Interpreter, State, run_all, strings_view, NO_STEP_LIMIT};
use crate::parser::{ParseError, Parser};
use crate::stmt::Stmt;
use crate::token::{LexError, Token, Tokensizer, scan_errors, scan_tokens, views};
use crate::error::RuntimeError;

verus! {

/// The state a program starts in: the global environment, nothing printed,
/// and the given input lines.
pub open spec fn initial_state(input: Seq<Seq<char>>) -> State {
    State { env: global_env(), out: Seq::empty(), input }
}

/// Everything one run of a program reports.
pub struct RunReport {
    pub lex_errors: Vec<LexError>,
    pub parse_errors: Vec<ParseError>,
    pub output: Vec<String>,
    pub runtime_errors: Vec<RuntimeError>,
}

/// The run of statements `ss` from the initial state with the given input.
pub open spec fn program_run(ss: Seq<Stmt>, input: Seq<Seq<char>>) -> (State, Seq<RuntimeError>) {
    run_all(ss, 0, initial_state(input), NO_STEP_LIMIT as nat)
}

/// What one run reports, for the scanned tokens `ts`: when they write no
/// program, syntax errors and nothing else; when they do, no syntax error,
/// and the output and runtime errors of running the program.
pub open spec fn run_reported(ts: Seq<Token>, input: Seq<Seq<char>>, r: RunReport) -> bool {
    &&& r.parse_errors@.len() > 0 ==> {
        &&& forall|ss: Seq<Stmt>| !program_at(ss, ts)
        &&& r.output@.len() == 0
        &&& r.runtime_errors@.len() == 0
    }
    &&& r.parse_errors@.len() == 0 ==> exists|ss: Seq<Stmt>|
        {
            &&& program_at(ss, ts)
            &&& strings_view(r.output@) == program_run(ss, input).0.out
            &&& r.runtime_errors@ == program_run(ss, input).1
        }
}

/// Scans, parses and runs a program. When a statement fails to parse, nothing
/// runs; otherwise the program's statements run with `input` as the lines
/// that `input` statements read.
pub fn run_program(source: &str, input: Vec<String>) -> (r: RunReport)
    ensures
        r.lex_errors@ == scan_errors(source@),
        exists|ts: Seq<Token>| views(ts) == scan_tokens(source@) && run_reported(ts, strings_view(input@), r),
{
    let ghost in_lines = strings_view(input@);
    let mut tokenizer = Tokensizer::new(source.to_string());
    let tokens = tokenizer.tokenize();
    let lex_errors = copy_lex_errors(tokenizer.errors());
    proof {
        crate::token::lemma_scan_ends_with_eof(source@, 0, 1);
        assert(views(tokens@).len() == tokens@.len());
        assert(views(tokens@)[tokens@.len() - 1] == tokens@[tokens@.len() - 1]@);
    }
    let ghost ts = tokens@;
    let mut parser = Parser::new(tokens);
    let ghost parser_tokens = parser.toks();
    let parsed = parser.parse();
    let parse_errors = take_parse_errors(&mut parser);
    match parsed {
        Some(statements) => {
            let mut interpreter = Interpreter::with_input(input);
            let ghost st0 = interpreter.state();
            assert(st0.out =~= Seq::<Seq<char>>::empty());
            assert(st0 == initial_state(in_lines));
            let program = statements.as_slice();
            assert(program@ == statements@);
            interpreter.interpret(program);
            let output = copy_strings(interpreter.output());
            let runtime_errors = copy_runtime_errors(interpreter.runtime_errors());
            assert(runtime_errors@ =~= program_run(statements@, in_lines).1);
            let r = RunReport { lex_errors, parse_errors, output, runtime_errors };
            assert(program_at(statements@, ts)
                && strings_view(r.output@) == program_run(statements@, in_lines).0.out
                && r.runtime_errors@ == program_run(statements@, in_lines).1);
            assert(run_reported(ts, in_lines, r));
            r
        },
        None => {
            let r = RunReport { lex_errors, parse_errors, output: Vec::new(), runtime_errors: Vec::new() };
            assert forall|ss: Seq<Stmt>| !program_at(ss, ts) by {
                if program_at(ss, ts) {
                    assert(program_at(ss, parser_tokens));
                }
            }
            assert(run_reported(ts, in_lines, r));
            r
        },
    }
}

/// Running a source's tokens is deterministic: the tokens write at most one
/// program (the grammar is unambiguous), so every program they write prints
/// the same lines and reports the same runtime errors, and `run_code` gives
/// one text for them.
pub proof fn lemma_run_deterministic(ts: Seq<Token>, ss1: Seq<Stmt>, ss2: Seq<Stmt>, input: Seq<Seq<char>>)
    requires
        program_at(ss1, ts),
        program_at(ss2, ts),
    ensures
        program_run(ss1, input) == program_run(ss2, input),
        join_lines(program_run(ss1, input).0.out) == join_lines(program_run(ss2, input).0.out),
{
    crate::grammar::lemma_unique_program(ss1, ss2, ts);
    crate::interpreter::lemma_run_eqv(ss1, ss2, 0, initial_state(input), NO_STEP_LIMIT as nat);
}

/// The message `run_code` gives for a program that does not parse.
pub open spec fn parse_failure_text() -> Seq<char> {
    "Parsing failed due to syntax errors."@
}

/// The printed lines, each followed by a line break.
pub open spec fn join_lines(ls: Seq<Seq<char>>) -> Seq<char>
    decreases ls.len(),
{
    if ls.len() == 0 {
        Seq::empty()
    } else {
        join_lines(ls.drop_last()) + ls.last() + seq!['\n']
    }
}

/// Runs a program without input: the lines it printed, each followed by a
/// line break, or a message when its tokens write no program.
pub fn run_code(source: &str) -> (r: String)
    ensures
        exists|ts: Seq<Token>|
            {
                &&& views(ts) == scan_tokens(source@)
                &&& ((forall|ss: Seq<Stmt>| !program_at(ss, ts)) && r@ == parse_failure_text()
                    || exists|ss: Seq<Stmt>|
                    program_at(ss, ts) && r@ == join_lines(program_run(ss, Seq::empty()).0.out))
            },
{
    let no_input: Vec<String> = Vec::new();
    assert(strings_view(no_input@) =~= Seq::<Seq<char>>::empty());
    let report = run_program(source, no_input);
    let ghost ts = choose|ts: Seq<Token>|
        views(ts) == scan_tokens(source@) && run_reported(ts, Seq::<Seq<char>>::empty(), report);
    if report.parse_errors.len() > 0 {
        let s = "Parsing failed due to syntax errors.".to_string();
        proof {
            reveal_strlit("Parsing failed due to syntax errors.");
        }
        return s;
    }
    let mut out: Vec<char> = Vec::new();
    let mut i: usize = 0;
    while i < report.output.len()
        invariant
            i <= report.output@.len(),
            out@ == join_lines(strings_view(report.output@.subrange(0, i as int))),
        decreases report.output@.len() - i,
    {
        let ghost prev = strings_view(report.output@.subrange(0, i as int));
        crate::value::push_str_chars(&report.output[i], &mut out);
        out.push('\n');
        proof {
            let next = strings_view(report.output@.subrange(0, i + 1));
            assert(next.drop_last() =~= prev);
            assert(next.last() == report.output@[i as int]@);
            assert(out@ =~= join_lines(prev) + next.last() + seq!['\n']);
        }
        i = i + 1;
    }
    proof {
        assert(report.output@.subrange(0, report.output@.len() as int) =~= report.output@);
    }
    let r = crate::value::string_of(&out, 0, out.len());
    assert(out@.subrange(0, out@.len() as int) =~= out@);
    proof {
        let ss = choose|ss: Seq<Stmt>|
            {
                &&& program_at(ss, ts)
                &&& strings_view(report.output@) == program_run(ss, Seq::<Seq<char>>::empty()).0.out
                &&& report.runtime_errors@ == program_run(ss, Seq::<Seq<char>>::empty()).1
            };
        assert(r@ == join_lines(program_run(ss, Seq::empty()).0.out));
    }
    r
}

fn copy_lex_errors(v: &Vec<LexError>) -> (r: Vec<LexError>)
    ensures
        r@ == v@,
{
    let mut r: Vec<LexError> = Vec::new();
    let mut i: usize = 0;
    while i < v.len()
        invariant
            i <= v@.len(),
            r@ == v@.subrange(0, i as int),
        decreases v@.len() - i,
    {
        r.push(v[i]);
        i = i + 1;
        assert(r@ =~= v@.subrange(0, i as int));
    }
    assert(r@ =~= v@);
    r
}

fn copy_strings(v: &Vec<String>) -> (r: Vec<String>)
    ensures
        r@ == v@,
{
    let mut r: Vec<String> = Vec::new();
    let mut i: usize = 0;
    while i < v.len()
        invariant
            i <= v@.len(),
            r@ == v@.subrange(0, i as int),
        decreases v@.len() - i,
    {
        r.push(v[i].clone());
        i = i + 1;
        assert(r@ =~= v@.subrange(0, i as int));
    }
    assert(r@ =~= v@);
    r
}

fn copy_runtime_errors(v: &Vec<RuntimeError>) -> (r: Vec<RuntimeError>)
    ensures
        r@ == v@,
{
    let mut r: Vec<RuntimeError> = Vec::new();
    let mut i: usize = 0;
    while i < v.len()
        invariant
            i <= v@.len(),
            r@ == v@.subrange(0, i as int),
        decreases v@.len() - i,
    {
        let e = &v[i];
        let token = match &e.token {
            Some(t) => Some(t.duplicate()),
            None => None,
        };
        r.push(RuntimeError { token, kind: e.kind });
        i = i + 1;
        assert(r@ =~= v@.subrange(0, i as int));
    }
    assert(r@ =~= v@);
    r
}

fn take_parse_errors(p: &mut Parser) -> (r: Vec<ParseError>)
    ensures
        r@ == old(p).syntax_errors(),
{
    let v = p.errors();
    let mut r: Vec<ParseError> = Vec::new();
    let mut i: usize = 0;
    while i < v.len()
        invariant
            i <= v@.len(),
            r@ == v@.subrange(0, i as int),
        decreases v@.len() - i,
    {
        r.push(ParseError::new(&v[i].token, v[i].position, v[i].kind));
        i = i + 1;
        assert(r@ =~= v@.subrange(0, i as int));
    }
    assert(r@ =~= v@);
    r
}

} // verus!

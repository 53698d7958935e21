use aoi::astprinter::AstPrinter;
use aoi::environment::Environment;
use aoi::error::RuntimeErrorKind;
use aoi::expr::{Binary, Expr, Grouping, Literal, Unary, Variable};
use aoi::interpreter::{binary_op, input_value_of, Interpreter};
use aoi::native_fn::{NativeError, NativeFunction};
use aoi::number::Number;
use aoi::parser::{ParseErrorKind, Parser};
use aoi::stmt::Stmt;
use aoi::token::{Token, TokenType, Tokensizer};
use aoi::value::{ClockFunction, Value};
use aoi::{run_code, run_program};

fn tok(k: TokenType, lexeme: &str) -> Token {
    Token::new(k, lexeme.to_string(), None, 1)
}

fn lit(v: Value) -> Box<Expr> {
    Box::new(Expr::Literal(Literal::new(v)))
}

fn errors_of(src: &str) -> Vec<RuntimeErrorKind> {
    run_program(src, Vec::new()).runtime_errors.iter().map(|e| e.kind).collect()
}

#[test]
fn precedence_of_star_over_plus() {
    assert_eq!(run_code("print(1+2*3);"), "7\n");
    assert_eq!(run_code("print((1+2)*3);"), "9\n");
    assert_eq!(run_code("print(10-4-3);"), "3\n");
    assert_eq!(run_code("print(-2*-3);"), "6\n");
}

#[test]
fn shadowing_does_not_leak() {
    assert_eq!(run_code("var x = 1; { var x = 2; print(x); } print(x);"), "2\n1\n");
}

#[test]
fn assignment_in_block_reaches_outer_scope() {
    assert_eq!(run_code("var x = 1; { x = 5; var y = 2; } print(x);"), "5\n");
    assert_eq!(errors_of("{ var y = 2; } print(y);"), vec![RuntimeErrorKind::UndefinedVariable]);
}

#[test]
fn division_by_zero_is_reported() {
    let report = run_program("print(1/0); print(2);", Vec::new());
    assert_eq!(report.runtime_errors.len(), 1);
    assert_eq!(report.runtime_errors[0].kind, RuntimeErrorKind::DivisionByZero);
    assert_eq!(report.runtime_errors[0].token.as_ref().unwrap().lexeme, "/");
    assert_eq!(report.output, vec!["2".to_string()]);
}

#[test]
fn assignment_to_undeclared_fails() {
    let report = run_program("x = 5; print(x);", Vec::new());
    let kinds: Vec<RuntimeErrorKind> = report.runtime_errors.iter().map(|e| e.kind).collect();
    assert_eq!(kinds, vec![RuntimeErrorKind::UndefinedVariable, RuntimeErrorKind::UndefinedVariable]);
    assert!(report.output.is_empty());
}

#[test]
fn truthiness_only_false_and_nil_are_falsy() {
    assert_eq!(run_code("print(!nil);"), "true\n");
    assert_eq!(run_code("print(!0);"), "false\n");
    assert_eq!(run_code("print(!false);"), "true\n");
    assert_eq!(run_code("print(!\"\");"), "false\n");
    let mut interp = Interpreter::new();
    let e = Expr::Unary(Unary::new(tok(TokenType::BANG, "!"), lit(Value::Nil)));
    assert!(matches!(interp.evaluate(&e), Ok(Value::Boolean(true))));
    let zero = Expr::Unary(Unary::new(tok(TokenType::BANG, "!"), lit(Value::Number(Number::from_int(0)))));
    assert!(matches!(interp.evaluate(&zero), Ok(Value::Boolean(false))));
}

#[test]
fn same_source_runs_the_same_twice() {
    let src = "var a = 1; var i = 0; while (i < 5) { a = a * 2; i = i + 1; } print(a); print(a / 3);";
    let first = run_code(src);
    let second = run_code(src);
    assert_eq!(first, second);
    assert_eq!(first, "32\n10.6666666666666666\n");
}

#[test]
fn string_concatenation() {
    assert_eq!(run_code("print(\"ab\" + \"cd\");"), "abcd\n");
    assert_eq!(run_code("print(\"n=\" + 1.5);"), "n=1.5\n");
    assert_eq!(run_code("print(true + \"!\");"), "true!\n");
    assert_eq!(errors_of("print(true + 1);"), vec![RuntimeErrorKind::OperandTypeError]);
}

#[test]
fn division_is_exact() {
    assert_eq!(run_code("print(7/2);"), "3.5\n");
    assert_eq!(run_code("print(1/3);"), "0.3333333333333333\n");
    assert_eq!(run_code("print(0.1 + 0.2);"), "0.3\n");
}

#[test]
fn comparisons_and_equality() {
    assert_eq!(run_code("print(1 < 2); print(2 <= 2); print(3 > 4); print(3 >= 4);"), "true\ntrue\nfalse\nfalse\n");
    assert_eq!(run_code("print(1 == 1.0); print(\"a\" != \"a\"); print(nil == nil);"), "true\nfalse\ntrue\n");
    assert_eq!(run_code("print(1 == \"1\"); print(nil == false);"), "false\nfalse\n");
    assert_eq!(errors_of("print(\"a\" < \"b\");"), vec![RuntimeErrorKind::OperandTypeError]);
    assert_eq!(errors_of("print(-\"a\");"), vec![RuntimeErrorKind::OperandTypeError]);
}

#[test]
fn logical_operators_short_circuit_to_booleans() {
    assert_eq!(run_code("print(nil or 3); print(1 and nil); print(false and x); print(1 or x);"), "true\nfalse\nfalse\ntrue\n");
}

#[test]
fn if_requires_a_boolean_condition() {
    assert_eq!(run_code("if (1 < 2) print(1); else print(2);"), "1\n");
    assert_eq!(run_code("if (false) print(1); else print(2);"), "2\n");
    assert_eq!(errors_of("if (1) print(1);"), vec![RuntimeErrorKind::ConditionTypeError]);
}

#[test]
fn dangling_else_binds_to_nearest_if() {
    assert_eq!(run_code("if (true) if (false) print(1); else print(2);"), "2\n");
    assert_eq!(run_code("if (false) if (true) print(1); else print(2);"), "");
}

#[test]
fn while_loop_and_step_limit() {
    assert_eq!(run_code("var i = 0; while (i < 3) { print(i); i = i + 1; }"), "0\n1\n2\n");
    let tokens = Tokensizer::new("var i = 0; while (true) i = i + 1; print(i);".to_string()).tokenize();
    let statements = Parser::new(tokens).parse().unwrap();
    let mut interp = Interpreter::new();
    interp.set_step_limit(10);
    interp.interpret(&statements);
    assert_eq!(interp.runtime_errors().len(), 1);
    assert_eq!(interp.runtime_errors()[0].kind, RuntimeErrorKind::StepLimitExceeded);
    assert_eq!(interp.output(), &vec!["10".to_string()]);
}

#[test]
fn assignment_is_right_associative_and_an_expression() {
    assert_eq!(run_code("var a; var b; a = b = 3; print(a); print(b); print(a = 4);"), "3\n3\n4\n");
    assert_eq!(run_code("var a; print(a);"), "nil\n");
}

#[test]
fn parse_failures() {
    assert_eq!(run_code("1 + 2 = 3;"), "Parsing failed due to syntax errors.");
    assert_eq!(run_code("print 1;"), "Parsing failed due to syntax errors.");
    let report = run_program("(a) = 1; print(1;", Vec::new());
    let kinds: Vec<ParseErrorKind> = report.parse_errors.iter().map(|e| e.kind).collect();
    assert_eq!(kinds, vec![ParseErrorKind::InvalidAssignmentTarget, ParseErrorKind::Expected(TokenType::RIGHT_PAREN)]);
    assert!(report.output.is_empty());
    let report = run_program("print(;", Vec::new());
    assert_eq!(report.parse_errors[0].kind, ParseErrorKind::ExpectExpression);
    assert_eq!(report.parse_errors[0].token.lexeme, ";");
}

#[test]
fn parser_builds_the_expected_tree() {
    let tokens = Tokensizer::new("1 + 2 * 3;".to_string()).tokenize();
    let statements = Parser::new(tokens).parse().unwrap();
    assert_eq!(statements.len(), 1);
    match &statements[0] {
        Stmt::Expression { expression } => {
            assert_eq!(AstPrinter::new().print(expression), "(+ 1 (* 2 3))");
        },
        _ => panic!("expression statement expected"),
    }
}

#[test]
fn ast_printer_forms() {
    let e = Expr::Binary(Binary::new(
        Box::new(Expr::Unary(Unary::new(tok(TokenType::MINUS, "-"), lit(Value::Number(Number::from_int(123)))))),
        tok(TokenType::STAR, "*"),
        Box::new(Expr::Grouping(Grouping::new(lit(Value::Number(Number::new(4567, 100).unwrap()))))),
    ));
    assert_eq!(AstPrinter::new().print(&e), "(* (- 123) (group 45.67))");
    let v = Expr::Variable(Variable::new(tok(TokenType::IDENTIFIER, "x")));
    assert_eq!(AstPrinter::new().print(&v), "x");
}

#[test]
fn input_statement_reads_lines() {
    let name = tok(TokenType::IDENTIFIER, "x");
    let program = vec![
        Stmt::Var { name: "x".to_string(), initializer: None },
        Stmt::Input { name: name.clone() },
        Stmt::Print { expression: Expr::Binary(Binary::new(
            Box::new(Expr::Variable(Variable::new(name.clone()))),
            tok(TokenType::PLUS, "+"),
            lit(Value::Number(Number::from_int(1))),
        )) },
        Stmt::Input { name: name.clone() },
        Stmt::Print { expression: Expr::Variable(Variable::new(name.clone())) },
        Stmt::Input { name: tok(TokenType::IDENTIFIER, "y") },
    ];
    let mut interp = Interpreter::with_input(vec!["41".to_string(), "hello".to_string()]);
    interp.interpret(&program);
    assert_eq!(interp.output(), &vec!["42".to_string(), "hello".to_string()]);
    assert_eq!(interp.runtime_errors().len(), 1);
    assert_eq!(interp.runtime_errors()[0].kind, RuntimeErrorKind::UndefinedVariable);
}

#[test]
fn input_values() {
    assert!(matches!(input_value_of(&"-2.5".to_string()), Value::Number(n) if n.numerator() == -5 && n.denominator() == 2));
    assert!(matches!(input_value_of(&"12".to_string()), Value::Number(n) if n.numerator() == 12));
    assert!(matches!(input_value_of(&"12a".to_string()), Value::Text(ref s) if s == "12a"));
    assert!(matches!(input_value_of(&"".to_string()), Value::Text(ref s) if s.is_empty()));
}

#[test]
fn number_overflow_is_reported() {
    assert_eq!(errors_of("print(9223372036854775807 * 10);"), vec![RuntimeErrorKind::NumberOverflow]);
    assert_eq!(run_code("print(9223372036854775807);"), "9223372036854775807\n");
    assert_eq!(errors_of("var a = 100000000000000000; print(a * a);"), vec![RuntimeErrorKind::NumberOverflow]);
}

#[test]
fn binary_op_table() {
    let two = Value::Number(Number::from_int(2));
    let three = Value::Number(Number::from_int(3));
    assert!(matches!(binary_op(TokenType::MINUS, &two, &three), Ok(Value::Number(n)) if n.numerator() == -1));
    assert!(matches!(binary_op(TokenType::EQUAL_EQUAL, &two, &Value::Nil), Ok(Value::Boolean(false))));
    assert!(matches!(binary_op(TokenType::BANG_EQUAL, &two, &Value::Nil), Ok(Value::Boolean(true))));
    assert_eq!(binary_op(TokenType::DOT, &two, &three).err(), Some(RuntimeErrorKind::UnsupportedOperator));
    assert_eq!(binary_op(TokenType::SLASH, &two, &Value::Number(Number::from_int(0))).err(), Some(RuntimeErrorKind::DivisionByZero));
}

#[test]
fn environment_scopes() {
    let name = |s: &str| tok(TokenType::IDENTIFIER, s);
    let mut env = Environment::new_global();
    assert!(matches!(env.get(&name("clock")), Ok(Value::Native(_))));
    env.define("a".to_string(), Value::Number(Number::from_int(1)));
    let mut inner = Environment::with_enclosing(env);
    inner.define("a".to_string(), Value::Boolean(true));
    assert!(matches!(inner.get(&name("a")), Ok(Value::Boolean(true))));
    assert!(inner.assign(&name("a"), Value::Nil).is_ok());
    let missing = inner.assign(&name("b"), Value::Nil).unwrap_err();
    assert_eq!(missing.kind, RuntimeErrorKind::UndefinedVariable);
    assert_eq!(missing.token.unwrap().lexeme, "b");
    assert!(inner.get(&name("b")).is_err());
    inner.pop_scope();
    assert!(matches!(inner.get(&name("a")), Ok(Value::Number(n)) if n.numerator() == 1));
}

#[test]
fn clock_native() {
    let clock = ClockFunction;
    assert_eq!(clock.arity(), 0);
    assert_eq!(clock.to_string(), "native fn clock()");
    assert_eq!(clock.call(&vec![Value::Nil]).err(), Some(NativeError::ArityMismatch));
    match clock.call(&Vec::new()) {
        Ok(Value::Number(n)) => assert!(n.numerator() / n.denominator() > 1_600_000_000),
        _ => panic!("clock reading expected"),
    }
    assert_eq!(run_code("print(clock);"), "native fn clock()\n");
}

fn parse_errors_of(src: &str) -> Vec<(ParseErrorKind, String)> {
    let tokens = Tokensizer::new(src.to_string()).tokenize();
    let mut parser = Parser::new(tokens);
    assert!(parser.parse().is_none());
    parser.errors().iter().map(|e| (e.kind, e.token.lexeme.clone())).collect()
}

#[test]
fn print_without_parenthesis_reports_expected_paren() {
    let errors = parse_errors_of("print 1;");
    assert_eq!(errors[0], (ParseErrorKind::Expected(TokenType::LEFT_PAREN), "1".to_string()));
}

#[test]
fn invalid_assignment_targets_are_reported() {
    assert_eq!(parse_errors_of("1 = 2;")[0], (ParseErrorKind::InvalidAssignmentTarget, "=".to_string()));
    assert_eq!(parse_errors_of("a + b = c;")[0], (ParseErrorKind::InvalidAssignmentTarget, "=".to_string()));
}

#[test]
fn missing_expression_and_semicolon_are_reported() {
    assert_eq!(parse_errors_of(";")[0], (ParseErrorKind::ExpectExpression, ";".to_string()));
    assert_eq!(parse_errors_of("var x = 1; x = 2")[0], (ParseErrorKind::Expected(TokenType::SEMICOLON), "".to_string()));
    assert_eq!(parse_errors_of("var 1;")[0], (ParseErrorKind::Expected(TokenType::IDENTIFIER), "1".to_string()));
}

#[test]
fn parsing_resumes_at_statement_boundaries() {
    let errors = parse_errors_of("1 = 2; print 3; var x = 4; if 5;");
    let kinds: Vec<ParseErrorKind> = errors.iter().map(|e| e.0).collect();
    assert_eq!(
        kinds,
        vec![
            ParseErrorKind::InvalidAssignmentTarget,
            ParseErrorKind::Expected(TokenType::LEFT_PAREN),
            ParseErrorKind::Expected(TokenType::LEFT_PAREN)
        ]
    );
}

#[test]
fn input_lines_are_trimmed() {
    assert!(matches!(input_value_of(&" 42\t".to_string()), Value::Number(n) if n.numerator() == 42));
    assert!(matches!(input_value_of(&"  hi there \n".to_string()), Value::Text(ref s) if s == "hi there"));
    assert!(matches!(input_value_of(&"\u{3000}7.5".to_string()), Value::Number(n) if n.numerator() == 15 && n.denominator() == 2));
}

fn number_parts(v: Value) -> Option<(i64, i64)> {
    match v {
        Value::Number(n) => Some((n.numerator(), n.denominator())),
        _ => None,
    }
}

#[test]
fn input_reads_decimal_float_forms() {
    let read = |s: &str| number_parts(input_value_of(&s.to_string()));
    assert_eq!(read("+5"), Some((5, 1)));
    assert_eq!(read(".5"), Some((1, 2)));
    assert_eq!(read("5."), Some((5, 1)));
    assert_eq!(read("1e3"), Some((1000, 1)));
    assert_eq!(read("2E-1"), Some((1, 5)));
    assert_eq!(read("-2.5e+1"), Some((-25, 1)));
    assert_eq!(read("12345678901234567890e-10"), Some((1234567890123456789, 1000000000)));
    assert_eq!(read("0e99999"), Some((0, 1)));
    assert_eq!(read("1e"), None);
    assert_eq!(read("e5"), None);
    assert_eq!(read("."), None);
    assert_eq!(read("inf"), None);
    assert_eq!(read("1e30"), None);
}

#[test]
fn condition_and_limit_errors_carry_their_keyword() {
    let report = run_program("var a = 1;\nif (a) print(a);", Vec::new());
    let e = &report.runtime_errors[0];
    assert_eq!(e.kind, RuntimeErrorKind::ConditionTypeError);
    let t = e.token.as_ref().unwrap();
    assert_eq!((t.lexeme.as_str(), t.line), ("if", 2));
    let tokens = Tokensizer::new("while (true) {}".to_string()).tokenize();
    let statements = Parser::new(tokens).parse().unwrap();
    let mut interp = Interpreter::new();
    interp.set_step_limit(3);
    interp.interpret(&statements);
    assert_eq!(interp.runtime_errors()[0].token.as_ref().unwrap().lexeme, "while");
}

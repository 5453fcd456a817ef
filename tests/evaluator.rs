use minilang::evaluator::{Evaluator, Halt, InputLine, Output, State};
use minilang::lexer::{Operator, SimpleTokenizer};
use minilang::parser::{AstNode, Expression, Parser};
use minilang::utils::{format_error, Span, SpanError};

fn ast<N>(node: N) -> AstNode<N> {
    AstNode {
        node,
        span: Span { start: 0, end: 0 },
    }
}

fn run(source: &str, inputs: Vec<InputLine>, fuel: u64) -> (Result<(), Halt>, State) {
    let program = Parser::new(SimpleTokenizer::new(source)).parse().unwrap();
    Evaluator {}.evaluate(&program, inputs, fuel)
}

fn failure(outcome: Result<(), Halt>) -> SpanError {
    match outcome {
        Err(Halt::Failed(error)) => error,
        other => panic!("expected a failure, got {:?}", other),
    }
}

fn variable(state: &State, name: &str) -> Option<i32> {
    state
        .variables
        .iter()
        .find(|(n, _)| n == name)
        .map(|(_, v)| *v)
}

fn values(state: &State) -> Vec<(String, i32)> {
    state
        .output
        .iter()
        .filter_map(|o| match o {
            Output::Value(label, value) => Some((label.clone(), *value)),
            _ => None,
        })
        .collect()
}

#[test]
fn test_evaluate_expression() {
    let ast = ast(Expression::BinaryOperator(
        Box::new(ast(Expression::Number(1))),
        Operator::Plus,
        Box::new(ast(Expression::Number(2))),
    ));
    let mut state = State {
        variables: Vec::new(),
        functions: Vec::new(),
        inputs: Vec::new(),
        consumed: 0,
        output: Vec::new(),
    };
    let evaluator = Evaluator {};
    let result = evaluator.evaluate_expression(&mut state, &ast).unwrap();
    let expected = 3;

    assert_eq!(expected, result);
}

#[test]
fn end_to_end_prints_the_result() {
    let (outcome, state) = run("var a = 2; var b = 3; print(a * b + 1);", vec![], 100);
    assert!(outcome.is_ok());
    assert_eq!(values(&state), vec![("Result".to_string(), 7)]);
}

#[test]
fn printing_a_variable_uses_its_name() {
    let (outcome, state) = run("var total = 5; print(total);", vec![], 100);
    assert!(outcome.is_ok());
    assert_eq!(values(&state), vec![("total".to_string(), 5)]);
}

#[test]
fn redefinition_fails() {
    let source = "var x = 1; var x = 2;";
    let error = failure(run(source, vec![], 100).0);
    assert_eq!(error.message, "Variable x is already defined");
    assert_eq!(error.span, Span { start: 11, end: 21 });
}

#[test]
fn undefined_reassignment_and_use_fail_differently() {
    let error = failure(run("y = 1;", vec![], 100).0);
    assert_eq!(error.message, "Variable y is not defined");
    assert_eq!(error.span, Span { start: 0, end: 6 });

    let error = failure(run("print(y);", vec![], 100).0);
    assert_eq!(error.message, "Variable does not exist: y");
    assert_eq!(error.span, Span { start: 6, end: 7 });
}

#[test]
fn loop_runs_exactly_three_times() {
    let source = "var i = 0; while i < 3 { i = i + 1; }";
    let (outcome, state) = run(source, vec![], 3);
    assert!(outcome.is_ok());
    assert_eq!(variable(&state, "i"), Some(3));

    let (outcome, state) = run(source, vec![], 2);
    assert!(matches!(outcome, Err(Halt::OutOfFuel)));
    assert_eq!(variable(&state, "i"), Some(2));
}

#[test]
fn call_arity_errors() {
    let error = failure(run("print(1, 2);", vec![], 100).0);
    assert_eq!(
        error.message,
        "Too many arguments for print. Expected 0 or 1, got 2"
    );
    assert_eq!(error.span, Span { start: 0, end: 11 });

    let error = failure(run("input(1);", vec![], 100).0);
    assert_eq!(error.message, "Input function does not take any arguments");
}

#[test]
fn unknown_function_fails() {
    let error = failure(run("launch();", vec![], 100).0);
    assert_eq!(error.message, "Function launch not found");
    assert_eq!(error.span, Span { start: 0, end: 8 });
}

#[test]
fn input_reads_a_trimmed_integer() {
    let source = "var x = input(); print(x + 1);";
    let (outcome, state) = run(source, vec![Ok("  -41 \n".to_string())], 100);
    assert!(outcome.is_ok());
    assert!(matches!(state.output[0], Output::Prompt));
    assert_eq!(values(&state), vec![("Result".to_string(), -40)]);
    assert_eq!(state.consumed, 1);

    let (outcome, _) = run(source, vec![Ok("+7".to_string())], 100);
    assert!(outcome.is_ok());
}

#[test]
fn input_waits_for_a_line() {
    let (outcome, state) = run("print(1); var x = input();", vec![], 100);
    assert!(matches!(outcome, Err(Halt::AwaitingInput)));
    assert_eq!(state.output.len(), 2);
    assert!(matches!(state.output[1], Output::Prompt));
}

#[test]
fn input_errors() {
    let error = failure(run("var x = input();", vec![Ok("seven".to_string())], 100).0);
    assert_eq!(error.message, "Error when converting string to integer: seven");
    assert_eq!(error.span, Span { start: 8, end: 15 });

    let error = failure(run("var x = input();", vec![Err("closed".to_string())], 100).0);
    assert_eq!(error.message, "Error when reading from console: closed");

    let error = failure(run("var x = input();", vec![Ok("2147483648".to_string())], 100).0);
    assert_eq!(
        error.message,
        "Error when converting string to integer: 2147483648"
    );
}

#[test]
fn print_without_arguments_shows_every_variable() {
    let (outcome, state) = run("var a = 1; var b = 2; print();", vec![], 100);
    assert!(outcome.is_ok());
    match &state.output[0] {
        Output::Snapshot(bindings) => assert_eq!(
            bindings,
            &vec![("a".to_string(), 1), ("b".to_string(), 2)]
        ),
        _ => panic!("expected a snapshot"),
    }
}

#[test]
fn arithmetic_wraps_and_comparison_gives_one_or_zero() {
    let (outcome, state) = run(
        "var m = 2147483647; print(m + 1); print((0 - m) - 2); print(0 - m - 2); print(65536 * 65536); print(1 < 2); print(2 < 1);",
        vec![],
        100,
    );
    assert!(outcome.is_ok());
    let printed: Vec<i32> = values(&state).into_iter().map(|(_, v)| v).collect();
    assert_eq!(printed, vec![-2147483648, 2147483647, -2147483645, 0, 1, 0]);
}

#[test]
fn evaluate_operator_values() {
    let evaluator = Evaluator {};
    assert_eq!(evaluator.evaluate_operator(Operator::Minus, 3, 5), -2);
    assert_eq!(evaluator.evaluate_operator(Operator::Multiplication, -4, 6), -24);
    assert_eq!(evaluator.evaluate_operator(Operator::LessThan, 5, 5), 0);
}

#[test]
fn nested_loops_share_the_budget_by_depth() {
    let source = "var i = 0; var n = 0; while i < 2 { i = i + 1; var j = 0; j = 0; } print(i);";
    let error = failure(run(source, vec![], 100).0);
    assert_eq!(error.message, "Variable j is already defined");

    let source = "var i = 0; var j = 0; var n = 0; while i < 3 { i = i + 1; j = 0; while j < 2 { j = j + 1; n = n + 1; } } print(n);";
    let (outcome, state) = run(source, vec![], 5);
    assert!(outcome.is_ok());
    assert_eq!(values(&state), vec![("n".to_string(), 6)]);
    let (outcome, _) = run(source, vec![], 4);
    assert!(matches!(outcome, Err(Halt::OutOfFuel)));
}

#[test]
fn errors_render_with_line_and_column() {
    let source = "var a = 1;\nvar b = c;\n";
    let error = failure(run(source, vec![], 100).0);
    assert_eq!(
        format_error(&error, source),
        "Variable does not exist: c, on line 2 char 9:\nvar b = c;\n"
    );
    let multibyte = "var é";
    let error = Parser::new(SimpleTokenizer::new(multibyte)).parse().unwrap_err();
    assert_eq!(
        format_error(&error, multibyte),
        "Unexpected token!, on line 1 char 5:\nvar é"
    );
}

#[test]
fn empty_program_runs() {
    let program = Parser::new(SimpleTokenizer::new("  \n ")).parse().unwrap();
    assert!(program.node.lines.is_empty());
    assert_eq!(program.span, Span { start: 4, end: 4 });
    let (outcome, state) = Evaluator {}.evaluate(&program, vec![], 10);
    assert!(outcome.is_ok());
    assert!(state.variables.is_empty());
    assert!(state.output.is_empty());
}

#[test]
fn reassignment_keeps_one_binding_per_name() {
    let (outcome, state) = run("var a = 1; a = 2; var b = a * 5; a = b;", vec![], 10);
    assert!(outcome.is_ok());
    assert_eq!(
        state.variables,
        vec![("a".to_string(), 10), ("b".to_string(), 10)]
    );
}

#[test]
fn builtins_are_input_then_print() {
    let (_, state) = run("", vec![], 10);
    let names: Vec<&str> = state.functions.iter().map(|(n, _)| n.as_str()).collect();
    assert_eq!(names, vec!["input", "print"]);
}

fn describe(output: &Output) -> String {
    match output {
        Output::Prompt => "prompt".to_string(),
        Output::Value(label, value) => format!("{label}={value}"),
        Output::Snapshot(bindings) => format!("{bindings:?}"),
    }
}

#[test]
fn rerun_with_more_input_extends_the_output() {
    let source = "print(1); var x = input(); var i = 0; while i < x { i = i + 1; print(i); }";
    let (first, short) = run(source, vec![], 100);
    assert!(matches!(first, Err(Halt::AwaitingInput)));
    let (second, long) = run(source, vec![Ok("3".to_string())], 100);
    assert!(second.is_ok());
    let a: Vec<String> = short.output.iter().map(describe).collect();
    let b: Vec<String> = long.output.iter().map(describe).collect();
    assert_eq!(a, vec!["Result=1", "prompt"]);
    assert_eq!(b, vec!["Result=1", "prompt", "i=1", "i=2", "i=3"]);

    let (third, small) = run(source, vec![Ok("3".to_string())], 2);
    assert!(matches!(third, Err(Halt::OutOfFuel)));
    let c: Vec<String> = small.output.iter().map(describe).collect();
    assert_eq!(c, vec!["Result=1", "prompt", "i=1", "i=2"]);
}

#[test]
fn input_trims_unicode_whitespace() {
    let (outcome, state) = run(
        "var x = input(); print(x);",
        vec![Ok("\u{a0}\u{3000} 12\t\u{2003}\n".to_string())],
        10,
    );
    assert!(outcome.is_ok());
    assert_eq!(values(&state), vec![("x".to_string(), 12)]);
}

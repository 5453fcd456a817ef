use vstd::prelude::*;
use vstd::string::*;
use vstd::utf8::*;

use crate::lexer::Operator;
use crate::number::int_literal;
use crate::runtime::{function_input, function_print};
use crate::parser::{AstNode, Expression, FunctionCall, Line, Program};
use crate::utils::{decimal, decimal_text, ErrorView, Span, SpanError};

verus! {

pub type RuntimeError = SpanError;

/// The routines that calls can reach by name.
#[derive(PartialEq, Eq, Structural, Debug, Clone, Copy)]
pub enum Builtin {
    Input,
    Print,
}

/// What a program hands to its output: a prompt before reading input, one
/// printed value with its label, or a snapshot of every variable.
#[derive(Debug)]
pub enum Output {
    Prompt,
    Value(String, i32),
    Snapshot(Vec<(String, i32)>),
}

pub enum OutputView {
    Prompt,
    Value(Seq<char>, i32),
    Snapshot(Seq<(Seq<char>, i32)>),
}

/// Why evaluation stopped short: an error in the program, input that has not
/// arrived yet, or a loop that ran out of its iteration budget.
#[derive(Debug)]
pub enum Halt {
    Failed(RuntimeError),
    AwaitingInput,
    OutOfFuel,
}

pub enum HaltView {
    Failed(ErrorView),
    AwaitingInput,
    OutOfFuel,
}

/// One line of input as it arrived, or the reason reading it failed.
pub type InputLine = Result<String, String>;

/// The environment of one run: variables, the function table, the input lines
/// available and how many were read, and what was output.
pub struct State {
    pub variables: Vec<(String, i32)>,
    pub functions: Vec<(String, Builtin)>,
    pub inputs: Vec<InputLine>,
    pub consumed: usize,
    pub output: Vec<Output>,
}

pub struct Env {
    pub vars: Seq<(Seq<char>, i32)>,
    pub funcs: Seq<(Seq<char>, Builtin)>,
    pub inputs: Seq<Result<Seq<char>, Seq<char>>>,
    pub consumed: int,
    pub output: Seq<OutputView>,
}

pub open spec fn bindings_view(v: Vec<(String, i32)>) -> Seq<(Seq<char>, i32)> {
    v@.map_values(|p: (String, i32)| (p.0@, p.1))
}

pub open spec fn output_view(o: Output) -> OutputView {
    match o {
        Output::Prompt => OutputView::Prompt,
        Output::Value(s, v) => OutputView::Value(s@, v),
        Output::Snapshot(b) => OutputView::Snapshot(bindings_view(b)),
    }
}

pub open spec fn halt_view(h: Halt) -> HaltView {
    match h {
        Halt::Failed(e) => HaltView::Failed(e@),
        Halt::AwaitingInput => HaltView::AwaitingInput,
        Halt::OutOfFuel => HaltView::OutOfFuel,
    }
}

pub open spec fn input_view(i: InputLine) -> Result<Seq<char>, Seq<char>> {
    match i {
        Ok(s) => Ok(s@),
        Err(e) => Err(e@),
    }
}

pub open spec fn outcome<T>(r: Result<T, Halt>) -> Result<T, HaltView> {
    match r {
        Ok(v) => Ok(v),
        Err(h) => Err(halt_view(h)),
    }
}

impl State {
    /// Whether the environment is consistent: no two variables share a name.
    pub open spec fn wf(&self) -> bool {
        keys_unique(self@.vars)
    }
}

impl View for State {
    type V = Env;

    open spec fn view(&self) -> Env {
        Env {
            vars: bindings_view(self.variables),
            funcs: self.functions@.map_values(|p: (String, Builtin)| (p.0@, p.1)),
            inputs: self.inputs@.map_values(|i: InputLine| input_view(i)),
            consumed: self.consumed as int,
            output: self.output@.map_values(|o: Output| output_view(o)),
        }
    }
}

/// The first position at or after `i` whose name is `name`.
pub open spec fn find_from<V>(s: Seq<(Seq<char>, V)>, name: Seq<char>, i: int) -> Option<int>
    decreases s.len() - i,
{
    if i < 0 || i >= s.len() {
        None
    } else if s[i].0 == name {
        Some(i)
    } else {
        find_from(s, name, i + 1)
    }
}

/// The value of a binary operator on two values: wrapping arithmetic, and
/// `1` or `0` for a comparison.
pub open spec fn apply(op: Operator, a: i32, b: i32) -> i32 {
    match op {
        Operator::Plus => a.wrapping_add(b),
        Operator::Minus => a.wrapping_sub(b),
        Operator::Multiplication => a.wrapping_mul(b),
        Operator::LessThan => if a < b { 1 } else { 0 },
    }
}

pub open spec fn failed<T>(message: Seq<char>, span: Span) -> Result<T, HaltView> {
    Err(HaltView::Failed(ErrorView { message, span }))
}

pub open spec fn emit(env: Env, o: OutputView) -> Env {
    Env { output: env.output.push(o), ..env }
}

/// The label that `print` gives a value: the variable's name where the
/// argument is a bare variable.
pub open spec fn print_label(e: Expression) -> Seq<char> {
    match e {
        Expression::Identifier(name) => name@,
        _ => "Result"@,
    }
}

/// Whether a character has the Unicode `White_Space` property, which is what
/// `char::is_whitespace` tests.
pub open spec fn is_white_space(c: char) -> bool {
    ('\u{9}' <= c && c <= '\u{d}') || c == ' ' || c == '\u{85}' || c == '\u{a0}' || c
        == '\u{1680}' || ('\u{2000}' <= c && c <= '\u{200a}') || c == '\u{2028}' || c
        == '\u{2029}' || c == '\u{202f}' || c == '\u{205f}' || c == '\u{3000}'
}

/// The text without its leading whitespace.
pub open spec fn trim_front(s: Seq<char>) -> Seq<char>
    decreases s.len(),
{
    if s.len() > 0 && is_white_space(s[0]) {
        trim_front(s.drop_first())
    } else {
        s
    }
}

/// The text without its trailing whitespace.
pub open spec fn trim_back(s: Seq<char>) -> Seq<char>
    decreases s.len(),
{
    if s.len() > 0 && is_white_space(s.last()) {
        trim_back(s.drop_last())
    } else {
        s
    }
}

/// The text without leading and trailing whitespace.
pub open spec fn trimmed(s: Seq<char>) -> Seq<char> {
    trim_back(trim_front(s))
}

/// Relies on `str::trim`, which returns the text with leading and trailing
/// whitespace removed, whitespace being the characters with the Unicode
/// `White_Space` property.
#[verifier::external_body]
pub(crate) fn trim_text(s: &str) -> (r: &str)
    ensures
        r@ == trimmed(s@),
{
    s.trim()
}

/// The value of an expression, and the environment after it.
pub open spec fn eval_expr(e: AstNode<Expression>, env: Env) -> (Result<i32, HaltView>, Env)
    decreases e, 2nat,
{
    match e.node {
        Expression::Number(v) => (Ok(v), env),
        Expression::Identifier(name) => match find_from(env.vars, name@, 0) {
            Some(i) => (Ok(env.vars[i].1), env),
            None => (failed("Variable does not exist: "@ + name@, e.span), env),
        },
        Expression::BinaryOperator(l, op, r) => {
            let (lv, env1) = eval_expr(*l, env);
            match lv {
                Err(h) => (Err(h), env1),
                Ok(a) => {
                    let (rv, env2) = eval_expr(*r, env1);
                    match rv {
                        Err(h) => (Err(h), env2),
                        Ok(b) => (Ok(apply(op, a, b)), env2),
                    }
                },
            }
        },
        Expression::Call(fc) => eval_call(fc, env),
    }
}

/// The value of a call, by the routine that its name finds in the function table.
pub open spec fn eval_call(fc: AstNode<FunctionCall>, env: Env) -> (Result<i32, HaltView>, Env)
    decreases fc, 1nat,
{
    match find_from(env.funcs, fc.node.name@, 0) {
        None => (failed("Function "@ + fc.node.name@ + " not found"@, fc.span), env),
        Some(i) => match env.funcs[i].1 {
            Builtin::Input => eval_input(fc, env),
            Builtin::Print => eval_print(fc, env),
        },
    }
}

/// `print`: a snapshot of the variables with no argument, the labelled value
/// of one argument, an error with more; its value is zero.
pub open spec fn eval_print(fc: AstNode<FunctionCall>, env: Env) -> (Result<i32, HaltView>, Env)
    decreases fc, 0nat,
{
    let n = fc.node.arguments@.len();
    if n == 0 {
        (Ok(0), emit(env, OutputView::Snapshot(env.vars)))
    } else if n == 1 {
        let arg = fc.node.arguments@[0];
        let (v, env1) = eval_expr(arg, env);
        match v {
            Err(h) => (Err(h), env1),
            Ok(x) => (Ok(0), emit(env1, OutputView::Value(print_label(arg.node), x))),
        }
    } else {
        (
            failed(
                "Too many arguments for print. Expected 0 or 1, got "@ + decimal(n as int),
                fc.span,
            ),
            env,
        )
    }
}

/// `input()`: a prompt, then the next input line read as an integer.
pub open spec fn eval_input(fc: AstNode<FunctionCall>, env: Env) -> (Result<i32, HaltView>, Env) {
    if fc.node.arguments@.len() != 0 {
        (failed("Input function does not take any arguments"@, fc.span), env)
    } else {
        let env1 = emit(env, OutputView::Prompt);
        if env1.consumed < 0 || env1.consumed >= env1.inputs.len() {
            (Err(HaltView::AwaitingInput), env1)
        } else {
            let env2 = Env { consumed: env1.consumed + 1, ..env1 };
            match env1.inputs[env1.consumed] {
                Err(msg) => (failed("Error when reading from console: "@ + msg, fc.span), env2),
                Ok(text) => match int_literal(encode_utf8(trimmed(text))) {
                    Some(v) => (Ok(v), env2),
                    None => (
                        failed("Error when converting string to integer: "@ + text, fc.span),
                        env2,
                    ),
                },
            }
        }
    }
}

/// The effect of one statement, and the environment after it. A loop run with
/// budget `fuel` makes at most `fuel` iterations, and in its k-th iteration
/// (counting from one) its body runs with budget `fuel - k`.
pub open spec fn eval_line(l: AstNode<Line>, env: Env, fuel: nat) -> (Result<(), HaltView>, Env)
    decreases fuel, l, 1nat,
{
    match l.node {
        Line::Assignment(name, expr) => {
            let (v, env1) = eval_expr(expr, env);
            match v {
                Err(h) => (Err(h), env1),
                Ok(x) => if find_from(env1.vars, name@, 0) is Some {
                    (failed("Variable "@ + name@ + " is already defined"@, l.span), env1)
                } else {
                    (Ok(()), Env { vars: env1.vars.push((name@, x)), ..env1 })
                },
            }
        },
        Line::Reassignment(name, expr) => {
            let (v, env1) = eval_expr(expr, env);
            match v {
                Err(h) => (Err(h), env1),
                Ok(x) => match find_from(env1.vars, name@, 0) {
                    Some(i) => (Ok(()), Env { vars: env1.vars.update(i, (name@, x)), ..env1 }),
                    None => (failed("Variable "@ + name@ + " is not defined"@, l.span), env1),
                },
            }
        },
        Line::Call(fc) => {
            let (v, env1) = eval_call(fc, env);
            match v {
                Err(h) => (Err(h), env1),
                Ok(_) => (Ok(()), env1),
            }
        },
        Line::Loop(_, _) => eval_loop(l, env, fuel),
    }
}

/// A loop: while its condition is non-zero, its body, one iteration of the
/// budget each time.
pub open spec fn eval_loop(l: AstNode<Line>, env: Env, fuel: nat) -> (Result<(), HaltView>, Env)
    decreases fuel, l, 0nat,
{
    match l.node {
        Line::Loop(cond, body) => {
            let (c, env1) = eval_expr(cond, env);
            match c {
                Err(h) => (Err(h), env1),
                Ok(x) => if x == 0 {
                    (Ok(()), env1)
                } else if fuel == 0 {
                    (Err(HaltView::OutOfFuel), env1)
                } else {
                    let (b, env2) = eval_lines(body@, 0, env1, (fuel - 1) as nat);
                    match b {
                        Err(h) => (Err(h), env2),
                        Ok(_) => eval_loop(l, env2, (fuel - 1) as nat),
                    }
                },
            }
        },
        _ => (Ok(()), env),
    }
}

/// The statements from position `i` on, in order, up to the first that stops.
pub open spec fn eval_lines(lines: Seq<AstNode<Line>>, i: int, env: Env, fuel: nat) -> (Result<(), HaltView>, Env)
    decreases fuel, lines, lines.len() - i,
{
    if i < 0 || i >= lines.len() {
        (Ok(()), env)
    } else {
        let (r, env1) = eval_line(lines[i], env, fuel);
        match r {
            Err(h) => (Err(h), env1),
            Ok(_) => eval_lines(lines, i + 1, env1, fuel),
        }
    }
}

/// The environment in which a program starts: no variables, the two builtins,
/// the input lines given, none read, nothing output.
pub open spec fn initial_env(inputs: Seq<Result<Seq<char>, Seq<char>>>) -> Env {
    Env {
        vars: seq![],
        funcs: seq![("input"@, Builtin::Input), ("print"@, Builtin::Print)],
        inputs,
        consumed: 0,
        output: seq![],
    }
}

/// Running a whole program.
pub open spec fn run(program: Program, inputs: Seq<Result<Seq<char>, Seq<char>>>, fuel: nat) -> (Result<(), HaltView>, Env) {
    eval_lines(program.lines@, 0, initial_env(inputs), fuel)
}

proof fn lemma_find_from<V>(s: Seq<(Seq<char>, V)>, name: Seq<char>, i: int)
    ensures
        find_from(s, name, i) matches Some(k) ==> i <= k < s.len() && s[k].0 == name,
    decreases s.len() - i,
{
    if 0 <= i < s.len() && s[i].0 != name {
        lemma_find_from(s, name, i + 1);
    }
}

/// Appends an output and nothing else.
pub(crate) fn push_output(state: &mut State, o: Output)
    ensures
        final(state)@ == emit(old(state)@, output_view(o)),
{
    let ghost before = state@;
    let ghost ov = output_view(o);
    state.output.push(o);
    proof {
        assert(state@.output =~= before.output.push(ov));
        assert(state@.vars =~= before.vars);
        assert(state@.funcs =~= before.funcs);
        assert(state@.inputs =~= before.inputs);
    }
}

fn find_variable(vars: &Vec<(String, i32)>, name: &String) -> (r: Option<usize>)
    ensures
        r matches Some(i) ==> i < vars@.len(),
        r matches Some(i) ==> find_from(bindings_view(*vars), name@, 0) == Some(i as int),
        r is None ==> find_from(bindings_view(*vars), name@, 0) is None,
{
    proof {
        lemma_find_from(bindings_view(*vars), name@, 0);
    }
    let mut i: usize = 0;
    while i < vars.len()
        invariant
            i <= vars@.len(),
            find_from(bindings_view(*vars), name@, 0) == find_from(bindings_view(*vars), name@, i as int),
        decreases vars.len() - i,
    {
        if vars[i].0 == *name {
            return Some(i);
        }
        i = i + 1;
    }
    None
}

fn find_function(funcs: &Vec<(String, Builtin)>, name: &String) -> (r: Option<Builtin>)
    ensures
        ({
            let v = funcs@.map_values(|p: (String, Builtin)| (p.0@, p.1));
            match find_from(v, name@, 0) {
                Some(i) => r == Some(v[i].1),
                None => r is None,
            }
        }),
{
    let ghost v = funcs@.map_values(|p: (String, Builtin)| (p.0@, p.1));
    let mut i: usize = 0;
    while i < funcs.len()
        invariant
            i <= funcs@.len(),
            v == funcs@.map_values(|p: (String, Builtin)| (p.0@, p.1)),
            find_from(v, name@, 0) == find_from(v, name@, i as int),
        decreases funcs.len() - i,
    {
        if funcs[i].0 == *name {
            return Some(funcs[i].1);
        }
        i = i + 1;
    }
    None
}

pub(crate) fn copy_bindings(vars: &Vec<(String, i32)>) -> (r: Vec<(String, i32)>)
    ensures
        bindings_view(r) == bindings_view(*vars),
{
    let mut r: Vec<(String, i32)> = Vec::new();
    let mut i: usize = 0;
    while i < vars.len()
        invariant
            i <= vars@.len(),
            r@.len() == i,
            bindings_view(r) == bindings_view(*vars).subrange(0, i as int),
        decreases vars.len() - i,
    {
        let name = vars[i].0.clone();
        let ghost before = r@;
        let ghost old_view = bindings_view(r);
        r.push((name, vars[i].1));
        proof {
            assert(r@ == before.push((name, vars@[i as int].1)));
            assert(bindings_view(r) =~= bindings_view(*vars).subrange(0, i + 1)) by {
                assert forall|j: int| 0 <= j < i + 1 implies #[trigger] bindings_view(r)[j]
                    == bindings_view(*vars)[j] by {
                    if j < i {
                        assert(bindings_view(r)[j] == (before[j].0@, before[j].1));
                        assert(old_view[j] == (before[j].0@, before[j].1));
                        assert(old_view[j] == bindings_view(*vars).subrange(0, i as int)[j]);
                    } else {
                        assert(name@ == vars@[i as int].0@);
                    }
                }
            }
        }
        i = i + 1;
    }
    proof {
        assert(bindings_view(*vars).subrange(0, i as int) =~= bindings_view(*vars));
    }
    r
}

pub(crate) fn failure(message: String, span: Span) -> (r: Halt)
    ensures
        halt_view(r) == HaltView::Failed(ErrorView { message: message@, span }),
{
    Halt::Failed(SpanError { message, span })
}

/// Walks a program's tree and runs it.
pub struct Evaluator {}

impl Evaluator {
    /// Runs a program in a fresh environment that holds the given input lines,
    /// with loop budget `fuel` (see `eval_line`). Gives how the run ended and
    /// the environment it left.
    pub fn evaluate(&self, program: &AstNode<Program>, inputs: Vec<InputLine>, fuel: u64) -> (r: (
        Result<(), Halt>,
        State,
    ))
        ensures
            (outcome(r.0), r.1@) == run(
                program.node,
                inputs@.map_values(|i: InputLine| input_view(i)),
                fuel as nat,
            ),
            r.1.wf(),
    {
        proof {
            law_variables_unique(
                program.node,
                inputs@.map_values(|i: InputLine| input_view(i)),
                fuel as nat,
            );
        }
        let functions: Vec<(String, Builtin)> = vec![
            (String::from_str("input"), Builtin::Input),
            (String::from_str("print"), Builtin::Print),
        ];
        let mut state = State {
            variables: Vec::new(),
            functions,
            inputs,
            consumed: 0,
            output: Vec::new(),
        };
        proof {
            assert(state@.vars =~= seq![]);
            assert(state@.output =~= seq![]);
            assert(state@.funcs =~= seq![("input"@, Builtin::Input), ("print"@, Builtin::Print)]);
        }
        let r = self.evaluate_lines(&mut state, &program.node.lines, fuel);
        (r, state)
    }

    fn evaluate_lines(&self, state: &mut State, lines: &Vec<AstNode<Line>>, fuel: u64) -> (r: Result<
        (),
        Halt,
    >)
        ensures
            (outcome(r), final(state)@) == eval_lines(lines@, 0, old(state)@, fuel as nat),
        decreases fuel, lines@, 1nat,
    {
        let mut i: usize = 0;
        while i < lines.len()
            invariant
                i <= lines@.len(),
                eval_lines(lines@, 0, old(state)@, fuel as nat) == eval_lines(
                    lines@,
                    i as int,
                    state@,
                    fuel as nat,
                ),
            decreases lines.len() - i,
        {
            self.evaluate_line(state, &lines[i], fuel)?;
            i = i + 1;
        }
        Ok(())
    }

    fn evaluate_line(&self, state: &mut State, line: &AstNode<Line>, fuel: u64) -> (r: Result<
        (),
        Halt,
    >)
        ensures
            (outcome(r), final(state)@) == eval_line(*line, old(state)@, fuel as nat),
        decreases fuel, *line, 0nat,
    {
        match &line.node {
            Line::Assignment(name, expression) => {
                let value = self.evaluate_expression(state, expression)?;
                if find_variable(&state.variables, name).is_some() {
                    return Err(
                        failure(
                            String::from_str("Variable ").concat(name.as_str()).concat(
                                " is already defined",
                            ),
                            line.span,
                        ),
                    );
                }
                let ghost before = state@;
                let key = name.clone();
                state.variables.push((key, value));
                proof {
                    assert(state@.vars =~= before.vars.push((name@, value)));
                    assert(state@.output =~= before.output);
                    assert(state@.funcs =~= before.funcs);
                    assert(state@.inputs =~= before.inputs);
                }
                Ok(())
            },
            Line::Reassignment(name, expression) => {
                let value = self.evaluate_expression(state, expression)?;
                match find_variable(&state.variables, name) {
                    Some(index) => {
                        let ghost before = state@;
                        let key = name.clone();
                        state.variables.set(index, (key, value));
                        proof {
                            assert(state@.vars =~= before.vars.update(index as int, (name@, value)));
                            assert(state@.output =~= before.output);
                            assert(state@.funcs =~= before.funcs);
                            assert(state@.inputs =~= before.inputs);
                        }
                        Ok(())
                    },
                    None => Err(
                        failure(
                            String::from_str("Variable ").concat(name.as_str()).concat(
                                " is not defined",
                            ),
                            line.span,
                        ),
                    ),
                }
            },
            Line::Call(function_call) => {
                self.evaluate_function_call(state, function_call)?;
                Ok(())
            },
            Line::Loop(condition, lines) => {
                let mut budget = fuel;
                loop
                    invariant
                        budget <= fuel,
                        line.node == Line::Loop(*condition, *lines),
                        eval_line(*line, old(state)@, fuel as nat) == eval_loop(
                            *line,
                            state@,
                            budget as nat,
                        ),
                    decreases budget,
                {
                    let value = self.evaluate_expression(state, condition)?;
                    if value == 0 {
                        return Ok(());
                    }
                    if budget == 0 {
                        return Err(Halt::OutOfFuel);
                    }
                    self.evaluate_lines(state, lines, budget - 1)?;
                    budget = budget - 1;
                }
            },
        }
    }

    pub fn evaluate_function_call(&self, state: &mut State, call: &AstNode<FunctionCall>) -> (r: Result<
        i32,
        Halt,
    >)
        ensures
            (outcome(r), final(state)@) == eval_call(*call, old(state)@),
        decreases *call, 1nat,
    {
        match find_function(&state.functions, &call.node.name) {
            None => Err(
                failure(
                    String::from_str("Function ").concat(call.node.name.as_str()).concat(
                        " not found",
                    ),
                    call.span,
                ),
            ),
            Some(Builtin::Input) => function_input(self, state, call),
            Some(Builtin::Print) => function_print(self, state, call),
        }
    }

    pub fn evaluate_operator(&self, operator: Operator, left: i32, right: i32) -> (r: i32)
        ensures
            r == apply(operator, left, right),
    {
        match operator {
            Operator::Plus => left.wrapping_add(right),
            Operator::Minus => left.wrapping_sub(right),
            Operator::Multiplication => left.wrapping_mul(right),
            Operator::LessThan => if left < right { 1 } else { 0 },
        }
    }

    pub fn evaluate_expression(&self, state: &mut State, expression: &AstNode<Expression>) -> (r: Result<
        i32,
        Halt,
    >)
        ensures
            (outcome(r), final(state)@) == eval_expr(*expression, old(state)@),
            final(state)@.vars == old(state)@.vars,
        decreases *expression, 2nat,
    {
        proof {
            lemma_expr_keeps_vars(*expression, old(state)@);
        }
        match &expression.node {
            Expression::Number(value) => Ok(*value),
            Expression::Call(function_call) => self.evaluate_function_call(state, function_call),
            Expression::BinaryOperator(left, op, right) => {
                let left_value = self.evaluate_expression(state, left)?;
                let right_value = self.evaluate_expression(state, right)?;
                Ok(self.evaluate_operator(*op, left_value, right_value))
            },
            Expression::Identifier(name) => match find_variable(&state.variables, name) {
                Some(index) => {
                    assert(state@.vars[index as int].1 == state.variables@[index as int].1);
                    Ok(state.variables[index].1)
                },
                None => Err(
                    failure(
                        String::from_str("Variable does not exist: ").concat(name.as_str()),
                        expression.span,
                    ),
                ),
            },
        }
    }
}

/// Whether no two variables share a name.
pub open spec fn keys_unique(vars: Seq<(Seq<char>, i32)>) -> bool {
    forall|i: int, j: int| 0 <= i < j < vars.len() ==> vars[i].0 != vars[j].0
}

proof fn lemma_find_none<V>(s: Seq<(Seq<char>, V)>, name: Seq<char>, i: int)
    requires
        0 <= i,
        find_from(s, name, i) is None,
    ensures
        forall|k: int| i <= k < s.len() ==> s[k].0 != name,
    decreases s.len() - i,
{
    if i < s.len() {
        lemma_find_none(s, name, i + 1);
    }
}

proof fn lemma_expr_keeps_vars(e: AstNode<Expression>, env: Env)
    ensures
        eval_expr(e, env).1.vars == env.vars,
    decreases e, 2nat,
{
    match e.node {
        Expression::BinaryOperator(l, _, r) => {
            lemma_expr_keeps_vars(*l, env);
            lemma_expr_keeps_vars(*r, eval_expr(*l, env).1);
        },
        Expression::Call(fc) => lemma_call_keeps_vars(fc, env),
        _ => {},
    }
}

proof fn lemma_call_keeps_vars(fc: AstNode<FunctionCall>, env: Env)
    ensures
        eval_call(fc, env).1.vars == env.vars,
    decreases fc, 1nat,
{
    lemma_print_keeps_vars(fc, env);
}

proof fn lemma_print_keeps_vars(fc: AstNode<FunctionCall>, env: Env)
    ensures
        eval_print(fc, env).1.vars == env.vars,
    decreases fc, 0nat,
{
    if fc.node.arguments@.len() == 1 {
        lemma_expr_keeps_vars(fc.node.arguments@[0], env);
    }
}

proof fn lemma_line_unique(l: AstNode<Line>, env: Env, fuel: nat)
    requires
        keys_unique(env.vars),
    ensures
        keys_unique(eval_line(l, env, fuel).1.vars),
    decreases fuel, l, 1nat,
{
    match l.node {
        Line::Assignment(name, expr) => {
            lemma_expr_keeps_vars(expr, env);
            let env1 = eval_expr(expr, env).1;
            if find_from(env1.vars, name@, 0) is None {
                lemma_find_none(env1.vars, name@, 0);
            }
        },
        Line::Reassignment(name, expr) => {
            lemma_expr_keeps_vars(expr, env);
            let env1 = eval_expr(expr, env).1;
            if let Some(i) = find_from(env1.vars, name@, 0) {
                lemma_find_from(env1.vars, name@, 0);
            }
        },
        Line::Call(fc) => lemma_call_keeps_vars(fc, env),
        Line::Loop(_, _) => lemma_loop_unique(l, env, fuel),
    }
}

proof fn lemma_loop_unique(l: AstNode<Line>, env: Env, fuel: nat)
    requires
        keys_unique(env.vars),
    ensures
        keys_unique(eval_loop(l, env, fuel).1.vars),
    decreases fuel, l, 0nat,
{
    if let Line::Loop(cond, body) = l.node {
        lemma_expr_keeps_vars(cond, env);
        let (c, env1) = eval_expr(cond, env);
        if c is Ok && c->Ok_0 != 0 && fuel > 0 {
            lemma_lines_unique(body@, 0, env1, (fuel - 1) as nat);
            let (b, env2) = eval_lines(body@, 0, env1, (fuel - 1) as nat);
            if b is Ok {
                lemma_loop_unique(l, env2, (fuel - 1) as nat);
            }
        }
    }
}

proof fn lemma_lines_unique(lines: Seq<AstNode<Line>>, i: int, env: Env, fuel: nat)
    requires
        keys_unique(env.vars),
    ensures
        keys_unique(eval_lines(lines, i, env, fuel).1.vars),
    decreases fuel, lines, lines.len() - i,
{
    if 0 <= i < lines.len() {
        lemma_line_unique(lines[i], env, fuel);
        let (r, env1) = eval_line(lines[i], env, fuel);
        if r is Ok {
            lemma_lines_unique(lines, i + 1, env1, fuel);
        }
    }
}

/// A program never binds one name twice: whichever way a run ends, the
/// variables it leaves have distinct names, since a second `var` of a name
/// fails and an assignment only replaces the value of a bound one.
pub proof fn law_variables_unique(
    program: Program,
    inputs: Seq<Result<Seq<char>, Seq<char>>>,
    fuel: nat,
)
    ensures
        keys_unique(run(program, inputs, fuel).1.vars),
{
    lemma_lines_unique(program.lines@, 0, initial_env(inputs), fuel);
}

/// Whether one output sequence starts with another.
pub open spec fn output_prefix(a: Seq<OutputView>, b: Seq<OutputView>) -> bool {
    a.len() <= b.len() && forall|i: int| 0 <= i < a.len() ==> a[i] == b[i]
}

/// Two environments alike but for more input lines available to the second.
pub open spec fn more_input(a: Env, b: Env) -> bool {
    a.vars == b.vars && a.funcs == b.funcs && a.consumed == b.consumed && a.output == b.output
        && a.inputs.len() <= b.inputs.len() && forall|i: int|
        0 <= i < a.inputs.len() ==> a.inputs[i] == b.inputs[i]
}

/// Whether a run stopped only for want of input or of loop budget.
pub open spec fn stopped_early<T>(r: Result<T, HaltView>) -> bool {
    r matches Err(HaltView::AwaitingInput) || r matches Err(HaltView::OutOfFuel)
}

/// How a run with more input or budget relates to one with less: the same
/// result and environment, unless the first stopped early, and then at least
/// the same output.
pub open spec fn agrees<T>(ra: Result<T, HaltView>, ea: Env, rb: Result<T, HaltView>, eb: Env) -> bool {
    if stopped_early(ra) {
        output_prefix(ea.output, eb.output)
    } else {
        ra == rb && more_input(ea, eb)
    }
}

proof fn lemma_expr_grows(e: AstNode<Expression>, env: Env)
    ensures
        output_prefix(env.output, eval_expr(e, env).1.output),
    decreases e, 2nat,
{
    match e.node {
        Expression::BinaryOperator(l, _, r) => {
            lemma_expr_grows(*l, env);
            lemma_expr_grows(*r, eval_expr(*l, env).1);
        },
        Expression::Call(fc) => lemma_call_grows(fc, env),
        _ => {},
    }
}

proof fn lemma_call_grows(fc: AstNode<FunctionCall>, env: Env)
    ensures
        output_prefix(env.output, eval_call(fc, env).1.output),
    decreases fc, 1nat,
{
    lemma_print_grows(fc, env);
}

proof fn lemma_print_grows(fc: AstNode<FunctionCall>, env: Env)
    ensures
        output_prefix(env.output, eval_print(fc, env).1.output),
    decreases fc, 0nat,
{
    if fc.node.arguments@.len() == 1 {
        lemma_expr_grows(fc.node.arguments@[0], env);
    }
}

proof fn lemma_line_grows(l: AstNode<Line>, env: Env, fuel: nat)
    ensures
        output_prefix(env.output, eval_line(l, env, fuel).1.output),
    decreases fuel, l, 1nat,
{
    match l.node {
        Line::Assignment(_, expr) => lemma_expr_grows(expr, env),
        Line::Reassignment(_, expr) => lemma_expr_grows(expr, env),
        Line::Call(fc) => lemma_call_grows(fc, env),
        Line::Loop(_, _) => lemma_loop_grows(l, env, fuel),
    }
}

proof fn lemma_loop_grows(l: AstNode<Line>, env: Env, fuel: nat)
    ensures
        output_prefix(env.output, eval_loop(l, env, fuel).1.output),
    decreases fuel, l, 0nat,
{
    if let Line::Loop(cond, body) = l.node {
        lemma_expr_grows(cond, env);
        let (c, env1) = eval_expr(cond, env);
        if c is Ok && c->Ok_0 != 0 && fuel > 0 {
            lemma_lines_grows(body@, 0, env1, (fuel - 1) as nat);
            let (b, env2) = eval_lines(body@, 0, env1, (fuel - 1) as nat);
            if b is Ok {
                lemma_loop_grows(l, env2, (fuel - 1) as nat);
            }
        }
    }
}

proof fn lemma_lines_grows(lines: Seq<AstNode<Line>>, i: int, env: Env, fuel: nat)
    ensures
        output_prefix(env.output, eval_lines(lines, i, env, fuel).1.output),
    decreases fuel, lines, lines.len() - i,
{
    if 0 <= i < lines.len() {
        lemma_line_grows(lines[i], env, fuel);
        let (r, env1) = eval_line(lines[i], env, fuel);
        if r is Ok {
            lemma_lines_grows(lines, i + 1, env1, fuel);
        }
    }
}

proof fn lemma_expr_agrees(e: AstNode<Expression>, a: Env, b: Env)
    requires
        more_input(a, b),
    ensures
        agrees(eval_expr(e, a).0, eval_expr(e, a).1, eval_expr(e, b).0, eval_expr(e, b).1),
    decreases e, 2nat,
{
    match e.node {
        Expression::BinaryOperator(l, _, r) => {
            lemma_expr_agrees(*l, a, b);
            let (la, a1) = eval_expr(*l, a);
            let (lb, b1) = eval_expr(*l, b);
            if stopped_early(la) {
                if lb is Ok {
                    lemma_expr_grows(*r, b1);
                }
            } else if la is Ok {
                lemma_expr_agrees(*r, a1, b1);
            }
        },
        Expression::Call(fc) => lemma_call_agrees(fc, a, b),
        _ => {},
    }
}

proof fn lemma_call_agrees(fc: AstNode<FunctionCall>, a: Env, b: Env)
    requires
        more_input(a, b),
    ensures
        agrees(eval_call(fc, a).0, eval_call(fc, a).1, eval_call(fc, b).0, eval_call(fc, b).1),
    decreases fc, 1nat,
{
    lemma_print_agrees(fc, a, b);
}

proof fn lemma_print_agrees(fc: AstNode<FunctionCall>, a: Env, b: Env)
    requires
        more_input(a, b),
    ensures
        agrees(eval_print(fc, a).0, eval_print(fc, a).1, eval_print(fc, b).0, eval_print(fc, b).1),
    decreases fc, 0nat,
{
    if fc.node.arguments@.len() == 1 {
        lemma_expr_agrees(fc.node.arguments@[0], a, b);
    }
}

proof fn lemma_line_agrees(l: AstNode<Line>, a: Env, b: Env, fa: nat, fb: nat)
    requires
        more_input(a, b),
        fa <= fb,
    ensures
        agrees(eval_line(l, a, fa).0, eval_line(l, a, fa).1, eval_line(l, b, fb).0, eval_line(l, b, fb).1),
    decreases fa, l, 1nat,
{
    match l.node {
        Line::Assignment(_, expr) => lemma_expr_agrees(expr, a, b),
        Line::Reassignment(_, expr) => lemma_expr_agrees(expr, a, b),
        Line::Call(fc) => lemma_call_agrees(fc, a, b),
        Line::Loop(_, _) => lemma_loop_agrees(l, a, b, fa, fb),
    }
}

proof fn lemma_loop_agrees(l: AstNode<Line>, a: Env, b: Env, fa: nat, fb: nat)
    requires
        more_input(a, b),
        fa <= fb,
    ensures
        agrees(eval_loop(l, a, fa).0, eval_loop(l, a, fa).1, eval_loop(l, b, fb).0, eval_loop(l, b, fb).1),
    decreases fa, l, 0nat,
{
    if let Line::Loop(cond, body) = l.node {
        lemma_expr_agrees(cond, a, b);
        let (ca, a1) = eval_expr(cond, a);
        let (cb, b1) = eval_expr(cond, b);
        if stopped_early(ca) {
            if cb is Ok && cb->Ok_0 != 0 && fb > 0 {
                lemma_lines_grows(body@, 0, b1, (fb - 1) as nat);
                let (bb, b2) = eval_lines(body@, 0, b1, (fb - 1) as nat);
                if bb is Ok {
                    lemma_loop_grows(l, b2, (fb - 1) as nat);
                }
            }
        } else if ca is Ok && ca->Ok_0 != 0 {
            if fa == 0 {
                if fb > 0 {
                    lemma_lines_grows(body@, 0, b1, (fb - 1) as nat);
                    let (bb, b2) = eval_lines(body@, 0, b1, (fb - 1) as nat);
                    if bb is Ok {
                        lemma_loop_grows(l, b2, (fb - 1) as nat);
                    }
                }
            } else {
                lemma_lines_agrees(body@, 0, a1, b1, (fa - 1) as nat, (fb - 1) as nat);
                let (ba, a2) = eval_lines(body@, 0, a1, (fa - 1) as nat);
                let (bb, b2) = eval_lines(body@, 0, b1, (fb - 1) as nat);
                if stopped_early(ba) {
                    if bb is Ok {
                        lemma_loop_grows(l, b2, (fb - 1) as nat);
                    }
                } else if ba is Ok {
                    lemma_loop_agrees(l, a2, b2, (fa - 1) as nat, (fb - 1) as nat);
                }
            }
        }
    }
}

proof fn lemma_lines_agrees(lines: Seq<AstNode<Line>>, i: int, a: Env, b: Env, fa: nat, fb: nat)
    requires
        more_input(a, b),
        fa <= fb,
    ensures
        agrees(
            eval_lines(lines, i, a, fa).0,
            eval_lines(lines, i, a, fa).1,
            eval_lines(lines, i, b, fb).0,
            eval_lines(lines, i, b, fb).1,
        ),
    decreases fa, lines, lines.len() - i,
{
    if 0 <= i < lines.len() {
        lemma_line_agrees(lines[i], a, b, fa, fb);
        let (ra, a1) = eval_line(lines[i], a, fa);
        let (rb, b1) = eval_line(lines[i], b, fb);
        if stopped_early(ra) {
            if rb is Ok {
                lemma_lines_grows(lines, i + 1, b1, fb);
            }
        } else if ra is Ok {
            lemma_lines_agrees(lines, i + 1, a1, b1, fa, fb);
        }
    }
}

/// Running a program again with more input lines appended, or a larger loop
/// budget, repeats the first run: the same result and environment, unless the
/// first run stopped for want of input or budget, and even then its output is
/// where the second run's output starts.
pub proof fn law_rerun_extends(
    program: Program,
    inputs: Seq<Result<Seq<char>, Seq<char>>>,
    more: Seq<Result<Seq<char>, Seq<char>>>,
    fuel: nat,
    extra: nat,
)
    ensures
        agrees(
            run(program, inputs, fuel).0,
            run(program, inputs, fuel).1,
            run(program, inputs + more, fuel + extra).0,
            run(program, inputs + more, fuel + extra).1,
        ),
{
    lemma_lines_agrees(
        program.lines@,
        0,
        initial_env(inputs),
        initial_env(inputs + more),
        fuel,
        fuel + extra,
    );
}

} // verus!

use vstd::prelude::*;
use vstd::string::*;

use crate::evaluator::{
    copy_bindings, eval_print, push_output, eval_input, failure, input_view, outcome, trim_text, Evaluator, Halt, Output,
    State,
};
use crate::number::parse_int;
use crate::parser::{AstNode, Expression, FunctionCall};
use crate::utils::decimal_text;

verus! {

/// `input()`: outputs a prompt, then reads the next input line as an integer,
/// surrounding whitespace ignored.
pub fn function_input(_evaluator: &Evaluator, state: &mut State, call: &AstNode<FunctionCall>) -> (r: Result<
    i32,
    Halt,
>)
    ensures
        (outcome(r), final(state)@) == eval_input(*call, old(state)@),
{
    if call.node.arguments.len() != 0 {
        return Err(
            failure(String::from_str("Input function does not take any arguments"), call.span),
        );
    }
    push_output(state, Output::Prompt);
    if state.consumed >= state.inputs.len() {
        return Err(Halt::AwaitingInput);
    }
    let index = state.consumed;
    state.consumed = index + 1;
    assert(state@.inputs[index as int] == input_view(state.inputs@[index as int]));
    match &state.inputs[index] {
        Err(message) => Err(
            failure(
                String::from_str("Error when reading from console: ").concat(message.as_str()),
                call.span,
            ),
        ),
        Ok(text) => {
            let trimmed = trim_text(text.as_str());
            match parse_int(trimmed.as_bytes()) {
                Some(value) => Ok(value),
                None => Err(
                    failure(
                        String::from_str("Error when converting string to integer: ").concat(
                            text.as_str(),
                        ),
                        call.span,
                    ),
                ),
            }
        },
    }
}

/// `print()`: with no argument, a snapshot of every variable; with one, its
/// value, labelled with the variable's name where it is a bare variable and
/// `Result` otherwise; more arguments are an error. Returns zero.
pub fn function_print(evaluator: &Evaluator, state: &mut State, call: &AstNode<FunctionCall>) -> (r: Result<
    i32,
    Halt,
>)
    ensures
        (outcome(r), final(state)@) == eval_print(*call, old(state)@),
    decreases *call, 0nat,
{
    let n = call.node.arguments.len();
    if n == 0 {
        let snapshot = copy_bindings(&state.variables);
        push_output(state, Output::Snapshot(snapshot));
        Ok(0)
    } else if n == 1 {
        let expression = &call.node.arguments[0];
        let value = evaluator.evaluate_expression(state, expression)?;
        let label = match &expression.node {
            Expression::Identifier(name) => name.clone(),
            _ => String::from_str("Result"),
        };
        push_output(state, Output::Value(label, value));
        Ok(0)
    } else {
        Err(
            failure(
                String::from_str("Too many arguments for print. Expected 0 or 1, got ").concat(
                    decimal_text(n as i128).as_str(),
                ),
                call.span,
            ),
        )
    }
}

} // verus!

use vstd::prelude::*;
use vstd::string::*;

use crate::lexer::{
    operator_precedence, precedence, result_view, Operator, Token, TokenNode, TokenView, Tokenizer,
};
use crate::utils::ErrorView;
use crate::utils::{decimal, decimal_text, Span, SpanError};

verus! {

pub type ParserError = SpanError;

/// A syntactic construct with the span of the source text it came from.
#[derive(PartialEq, Eq, Debug)]
pub struct AstNode<T> {
    pub node: T,
    pub span: Span,
}

#[derive(PartialEq, Debug)]
pub enum Expression {
    Number(i32),
    BinaryOperator(Box<AstNode<Expression>>, Operator, Box<AstNode<Expression>>),
    Identifier(String),
    Call(AstNode<FunctionCall>),
}

#[derive(PartialEq, Debug)]
pub struct Program {
    pub lines: Vec<AstNode<Line>>,
}

#[derive(PartialEq, Debug)]
pub enum Line {
    Assignment(String, AstNode<Expression>),
    Reassignment(String, AstNode<Expression>),
    Call(AstNode<FunctionCall>),
    Loop(AstNode<Expression>, Vec<AstNode<Line>>),
}

#[derive(PartialEq, Debug)]
pub struct FunctionCall {
    pub name: String,
    pub arguments: Vec<AstNode<Expression>>,
}

/// Which variant a token is, payload aside.
pub open spec fn kind(t: TokenView) -> u8 {
    match t {
        TokenView::OpeningParenthesis => 0,
        TokenView::ClosingParenthesis => 1,
        TokenView::OpeningCurlyBracket => 2,
        TokenView::ClosingCurlyBracket => 3,
        TokenView::SemiColon => 4,
        TokenView::Equals => 5,
        TokenView::Number(_) => 6,
        TokenView::Identifier(_) => 7,
        TokenView::Operator(_) => 8,
        TokenView::Var => 9,
        TokenView::While => 10,
        TokenView::Comma => 11,
        TokenView::Eof => 12,
    }
}

fn token_kind(t: &Token) -> (r: u8)
    ensures
        r == kind(t@),
{
    match t {
        Token::OpeningParenthesis => 0,
        Token::ClosingParenthesis => 1,
        Token::OpeningCurlyBracket => 2,
        Token::ClosingCurlyBracket => 3,
        Token::SemiColon => 4,
        Token::Equals => 5,
        Token::Number(_) => 6,
        Token::Identifier(_) => 7,
        Token::Operator(_) => 8,
        Token::Var => 9,
        Token::While => 10,
        Token::Comma => 11,
        Token::Eof => 12,
    }
}

pub open spec fn operator_name(op: Operator) -> Seq<char> {
    match op {
        Operator::Plus => "Plus"@,
        Operator::Minus => "Minus"@,
        Operator::Multiplication => "Multiplication"@,
        Operator::LessThan => "LessThan"@,
    }
}

/// The name of a token kind without its payload.
pub open spec fn kind_name(t: TokenView) -> Seq<char> {
    match t {
        TokenView::OpeningParenthesis => "OpeningParenthesis"@,
        TokenView::ClosingParenthesis => "ClosingParenthesis"@,
        TokenView::OpeningCurlyBracket => "OpeningCurlyBracket"@,
        TokenView::ClosingCurlyBracket => "ClosingCurlyBracket"@,
        TokenView::SemiColon => "SemiColon"@,
        TokenView::Equals => "Equals"@,
        TokenView::Number(_) => "Number"@,
        TokenView::Identifier(_) => "Identifier"@,
        TokenView::Operator(_) => "Operator"@,
        TokenView::Var => "Var"@,
        TokenView::While => "While"@,
        TokenView::Comma => "Comma"@,
        TokenView::Eof => "Eof"@,
    }
}

/// How a token is shown in a syntax error: its kind, then its payload in parentheses.
pub open spec fn token_text(t: TokenView) -> Seq<char> {
    match t {
        TokenView::Number(n) => "Number("@ + decimal(n as int) + ")"@,
        TokenView::Identifier(s) => "Identifier(\""@ + s + "\")"@,
        TokenView::Operator(op) => "Operator("@ + operator_name(op) + ")"@,
        _ => kind_name(t),
    }
}

fn operator_text(op: Operator) -> (r: String)
    ensures
        r@ == operator_name(op),
{
    match op {
        Operator::Plus => String::from_str("Plus"),
        Operator::Minus => String::from_str("Minus"),
        Operator::Multiplication => String::from_str("Multiplication"),
        Operator::LessThan => String::from_str("LessThan"),
    }
}

fn kind_text(t: &Token) -> (r: String)
    ensures
        r@ == kind_name(t@),
{
    match t {
        Token::OpeningParenthesis => String::from_str("OpeningParenthesis"),
        Token::ClosingParenthesis => String::from_str("ClosingParenthesis"),
        Token::OpeningCurlyBracket => String::from_str("OpeningCurlyBracket"),
        Token::ClosingCurlyBracket => String::from_str("ClosingCurlyBracket"),
        Token::SemiColon => String::from_str("SemiColon"),
        Token::Equals => String::from_str("Equals"),
        Token::Number(_) => String::from_str("Number"),
        Token::Identifier(_) => String::from_str("Identifier"),
        Token::Operator(_) => String::from_str("Operator"),
        Token::Var => String::from_str("Var"),
        Token::While => String::from_str("While"),
        Token::Comma => String::from_str("Comma"),
        Token::Eof => String::from_str("Eof"),
    }
}

/// The text of a token as syntax errors show it.
pub fn describe_token(t: &Token) -> (r: String)
    ensures
        r@ == token_text(t@),
{
    match t {
        Token::Number(n) => String::from_str("Number(").concat(
            decimal_text(*n as i128).as_str(),
        ).concat(")"),
        Token::Identifier(s) => String::from_str("Identifier(\"").concat(s.as_str()).concat(
            "\")",
        ),
        Token::Operator(op) => String::from_str("Operator(").concat(
            operator_text(*op).as_str(),
        ).concat(")"),
        _ => kind_text(t),
    }
}

/// The message of a syntax error: the token found and what was expected.
pub open spec fn unexpected(found: TokenView, expected: Seq<char>) -> Seq<char> {
    "Unexpected token "@ + token_text(found) + ", "@ + expected
}

fn unexpected_error(found: &TokenNode, expected: &str) -> (r: ParserError)
    ensures
        r@.message == unexpected(found.token@, expected@),
        r@.span == found.span,
{
    let message = String::from_str("Unexpected token ").concat(
        describe_token(&found.token).as_str(),
    ).concat(", ").concat(expected);
    SpanError { message, span: found.span }
}

/// Whether a span lies inside another.
pub open spec fn inside(inner: Span, outer: Span) -> bool {
    outer.start <= inner.start && inner.end <= outer.end
}

/// Whether an expression's spans nest: an operator spans from its left
/// operand's start to its right operand's end, the operands in order. A call
/// expression spans only the function's name, while the call inside it spans
/// through the closing parenthesis.
pub open spec fn expr_spans_ok(e: AstNode<Expression>) -> bool
    decreases e, 1nat,
{
    e.span.start <= e.span.end && match e.node {
        Expression::BinaryOperator(l, _, r) => l.span.start == e.span.start && r.span.end
            == e.span.end && l.span.end <= r.span.start && expr_spans_ok(*l) && expr_spans_ok(*r),
        Expression::Call(c) => c.span.start == e.span.start && e.span.end <= c.span.end
            && call_spans_ok(c),
        _ => true,
    }
}

/// Whether a call's arguments lie inside it, each with nested spans.
pub open spec fn call_spans_ok(c: AstNode<FunctionCall>) -> bool
    decreases c, 0nat,
{
    c.span.start <= c.span.end && forall|i: int|
        #![trigger c.node.arguments@[i]]
        0 <= i < c.node.arguments@.len() ==> inside(c.node.arguments@[i].span, c.span)
            && expr_spans_ok(c.node.arguments@[i])
}

/// Whether a statement's spans nest: each part lies inside the statement.
pub open spec fn line_spans_ok(l: AstNode<Line>) -> bool
    decreases l,
{
    l.span.start <= l.span.end && match l.node {
        Line::Assignment(_, e) => inside(e.span, l.span) && expr_spans_ok(e),
        Line::Reassignment(_, e) => inside(e.span, l.span) && expr_spans_ok(e),
        Line::Call(c) => c.span.start == l.span.start && c.span.end <= l.span.end
            && call_spans_ok(c),
        Line::Loop(cond, body) => inside(cond.span, l.span) && expr_spans_ok(cond) && forall|
            i: int,
        |
            #![trigger body@[i]]
            0 <= i < body@.len() ==> inside(body@[i].span, l.span) && line_spans_ok(body@[i]),
    }
}

/// Whether every statement of a program lies inside it, with nested spans.
pub open spec fn program_spans_ok(p: AstNode<Program>) -> bool {
    p.span.start <= p.span.end && forall|i: int|
        #![trigger p.node.lines@[i]]
        0 <= i < p.node.lines@.len() ==> inside(p.node.lines@[i].span, p.span) && line_spans_ok(
            p.node.lines@[i],
        )
}

/// An expression node as the grammar describes it, names as characters.
pub struct NodeV {
    pub expr: ExprV,
    pub span: Span,
}

pub enum ExprV {
    Number(i32),
    Binary(Box<NodeV>, Operator, Box<NodeV>),
    Identifier(Seq<char>),
    Call(CallV),
}

pub struct CallV {
    pub name: Seq<char>,
    pub args: Seq<NodeV>,
    pub span: Span,
}

pub struct LineNodeV {
    pub line: LineV,
    pub span: Span,
}

pub enum LineV {
    Assignment(Seq<char>, NodeV),
    Reassignment(Seq<char>, NodeV),
    Call(CallV),
    Loop(NodeV, Seq<LineNodeV>),
}

pub struct ProgramV {
    pub lines: Seq<LineNodeV>,
    pub span: Span,
}

pub open spec fn expr_v(e: AstNode<Expression>) -> NodeV
    decreases e, 2nat,
{
    NodeV {
        expr: match e.node {
            Expression::Number(n) => ExprV::Number(n),
            Expression::BinaryOperator(l, op, r) => ExprV::Binary(
                Box::new(expr_v(*l)),
                op,
                Box::new(expr_v(*r)),
            ),
            Expression::Identifier(name) => ExprV::Identifier(name@),
            Expression::Call(c) => ExprV::Call(call_v(c)),
        },
        span: e.span,
    }
}

pub open spec fn call_v(c: AstNode<FunctionCall>) -> CallV
    decreases c, 1nat,
{
    CallV { name: c.node.name@, args: exprs_v(c.node.arguments@), span: c.span }
}

pub open spec fn exprs_v(s: Seq<AstNode<Expression>>) -> Seq<NodeV>
    decreases s, 0nat,
{
    if s.len() == 0 {
        seq![]
    } else {
        exprs_v(s.subrange(0, s.len() - 1)).push(expr_v(s[s.len() - 1]))
    }
}

pub open spec fn line_v(l: AstNode<Line>) -> LineNodeV
    decreases l, 1nat,
{
    LineNodeV {
        line: match l.node {
            Line::Assignment(name, e) => LineV::Assignment(name@, expr_v(e)),
            Line::Reassignment(name, e) => LineV::Reassignment(name@, expr_v(e)),
            Line::Call(c) => LineV::Call(call_v(c)),
            Line::Loop(cond, body) => LineV::Loop(expr_v(cond), lines_v(body@)),
        },
        span: l.span,
    }
}

pub open spec fn lines_v(s: Seq<AstNode<Line>>) -> Seq<LineNodeV>
    decreases s, 0nat,
{
    if s.len() == 0 {
        seq![]
    } else {
        lines_v(s.subrange(0, s.len() - 1)).push(line_v(s[s.len() - 1]))
    }
}

pub open spec fn program_v(p: AstNode<Program>) -> ProgramV {
    ProgramV { lines: lines_v(p.node.lines@), span: p.span }
}

pub open spec fn res_v<A, B>(r: Result<A, ParserError>, f: spec_fn(A) -> B) -> Result<B, ErrorView> {
    match r {
        Ok(a) => Ok(f(a)),
        Err(e) => Err(e@),
    }
}

/// Two tokenizer states that yield the same tokens from here on.
pub open spec fn same<T: Tokenizer>(a: T, b: T) -> bool {
    a.front() == b.front() && a.rest() == b.rest() && a.remaining() == b.remaining()
}

/// What a syntax error says a rule expected, where it wants one token kind.
pub open spec fn expected_text(t: TokenView) -> Seq<char> {
    match t {
        TokenView::Operator(_) => "expected: Token::Operator(_)"@,
        _ => "expected: Token::"@ + kind_name(t),
    }
}

/// Consuming a token of the kind of `expected`.
pub open spec fn take_spec<T: Tokenizer>(s: T, expected: TokenView) -> (Result<Span, ErrorView>, T) {
    (
        match s.front() {
            Ok((t, sp)) => if kind(t) == kind(expected) {
                Ok(sp)
            } else {
                Err(ErrorView { message: unexpected(t, expected_text(expected)), span: sp })
            },
            Err(e) => Err(e),
        },
        s.rest(),
    )
}

/// The grammar of primary expressions: a number, an expression in
/// parentheses (its node returned as it is), a variable, or a call whose
/// node spans the name and whose call spans through the closing parenthesis.
pub open spec fn simple_spec<T: Tokenizer>(s: T) -> (Result<NodeV, ErrorView>, T)
    decreases s.remaining(), 0nat,
{
    match s.front() {
        Err(e) => (Err(e), s.rest()),
        Ok((t, sp)) => match t {
            TokenView::Number(n) => (Ok(NodeV { expr: ExprV::Number(n), span: sp }), s.rest()),
            TokenView::OpeningParenthesis => if s.rest().remaining() < s.remaining() {
                let (e, s1) = expression_spec(s.rest());
                match e {
                    Err(x) => (Err(x), s1),
                    Ok(inner) => {
                        let (c, s2) = take_spec(s1, TokenView::ClosingParenthesis);
                        match c {
                            Err(x) => (Err(x), s2),
                            Ok(_) => (Ok(inner), s2),
                        }
                    },
                }
            } else {
                (Ok(NodeV { expr: ExprV::Number(0), span: sp }), s.rest())
            },
            TokenView::Identifier(name) => {
                let s1 = s.rest();
                match s1.front() {
                    Err(x) => (Err(x), s1),
                    Ok((t1, _)) => if kind(t1) == kind(TokenView::OpeningParenthesis) {
                        let s2 = s1.rest();
                        if s2.remaining() < s.remaining() {
                            let (args, s3) = arguments_spec(s2);
                            match args {
                                Err(x) => (Err(x), s3),
                                Ok(a) => {
                                    let (c, s4) = take_spec(s3, TokenView::ClosingParenthesis);
                                    match c {
                                        Err(x) => (Err(x), s4),
                                        Ok(close) => (
                                            Ok(
                                                NodeV {
                                                    expr: ExprV::Call(
                                                        CallV {
                                                            name,
                                                            args: a,
                                                            span: Span { start: sp.start, end: close.end },
                                                        },
                                                    ),
                                                    span: sp,
                                                },
                                            ),
                                            s4,
                                        ),
                                    }
                                },
                            }
                        } else {
                            (Ok(NodeV { expr: ExprV::Identifier(name), span: sp }), s2)
                        }
                    } else {
                        (Ok(NodeV { expr: ExprV::Identifier(name), span: sp }), s1)
                    },
                }
            },
            _ => (
                Err(
                    ErrorView {
                        message: unexpected(t, "expected number, opening parenthesis, identifier"@),
                        span: sp,
                    },
                ),
                s.rest(),
            ),
        },
    }
}

/// Precedence climbing: a primary expression, then operators that bind at
/// least as tightly as `min`, each with a right operand parsed at the
/// operator's own precedence.
pub open spec fn operator_spec<T: Tokenizer>(s: T, min: u8) -> (Result<NodeV, ErrorView>, T)
    decreases s.remaining(), 1nat,
{
    let (l, s1) = simple_spec(s);
    match l {
        Err(x) => (Err(x), s1),
        Ok(left) => if s1.remaining() < s.remaining() {
            operator_loop_spec(left, s1, min)
        } else {
            (Ok(left), s1)
        },
    }
}

/// The operators that follow a left operand, each joining it with the right operand.
pub open spec fn operator_loop_spec<T: Tokenizer>(left: NodeV, s: T, min: u8) -> (Result<NodeV, ErrorView>, T)
    decreases s.remaining(), 0nat,
{
    match s.front() {
        Err(x) => (Err(x), s),
        Ok((t, _)) => match t {
            TokenView::Operator(op) => if precedence(op) < min || !(s.rest().remaining()
                < s.remaining()) {
                (Ok(left), s)
            } else {
                let (r, s2) = operator_spec(s.rest(), precedence(op));
                match r {
                    Err(x) => (Err(x), s2),
                    Ok(right) => {
                        let joined = NodeV {
                            expr: ExprV::Binary(Box::new(left), op, Box::new(right)),
                            span: Span { start: left.span.start, end: right.span.end },
                        };
                        if s2.remaining() < s.remaining() {
                            operator_loop_spec(joined, s2, min)
                        } else {
                            (Ok(joined), s2)
                        }
                    },
                }
            },
            _ => (Ok(left), s),
        },
    }
}

pub open spec fn expression_spec<T: Tokenizer>(s: T) -> (Result<NodeV, ErrorView>, T)
    decreases s.remaining(), 2nat,
{
    operator_spec(s, 0)
}

/// Comma-separated expressions up to a closing parenthesis, which stays unconsumed.
pub open spec fn arguments_spec<T: Tokenizer>(s: T) -> (Result<Seq<NodeV>, ErrorView>, T)
    decreases s.remaining(), 4nat,
{
    match s.front() {
        Err(x) => (Err(x), s),
        Ok((t, _)) => if kind(t) == kind(TokenView::ClosingParenthesis) {
            (Ok(seq![]), s)
        } else {
            arguments_from_spec(s, seq![])
        },
    }
}

pub open spec fn arguments_from_spec<T: Tokenizer>(s: T, acc: Seq<NodeV>) -> (Result<Seq<NodeV>, ErrorView>, T)
    decreases s.remaining(), 3nat,
{
    let (e, s1) = expression_spec(s);
    match e {
        Err(x) => (Err(x), s1),
        Ok(node) => {
            let acc1 = acc.push(node);
            match s1.front() {
                Err(x) => (Err(x), s1),
                Ok((t, _)) => if kind(t) == kind(TokenView::ClosingParenthesis) {
                    (Ok(acc1), s1)
                } else {
                    let (c, s2) = take_spec(s1, TokenView::Comma);
                    match c {
                        Err(x) => (Err(x), s2),
                        Ok(_) => if s2.remaining() < s.remaining() {
                            arguments_from_spec(s2, acc1)
                        } else {
                            (Ok(acc1), s2)
                        },
                    }
                },
            }
        },
    }
}


/// A placeholder result for a branch that a tokenizer's own laws rule out.
pub open spec fn stalled<A, T>(s: T) -> (Result<A, ErrorView>, T) {
    (Err(ErrorView { message: seq![], span: Span { start: 0, end: 0 } }), s)
}

/// `var NAME = EXPR ;`, spanning from `var` to the semicolon.
pub open spec fn assignment_spec<T: Tokenizer>(s: T) -> (Result<LineNodeV, ErrorView>, T)
    decreases s.remaining(), 5nat,
{
    let (v, s1) = take_spec(s, TokenView::Var);
    match v {
        Err(x) => (Err(x), s1),
        Ok(var_span) => match s1.front() {
            Err(x) => (Err(x), s1.rest()),
            Ok((t, sp)) => match t {
                TokenView::Identifier(name) => {
                    let (eq, s3) = take_spec(s1.rest(), TokenView::Equals);
                    match eq {
                        Err(x) => (Err(x), s3),
                        Ok(_) => if s3.remaining() < s.remaining() {
                            let (e, s4) = expression_spec(s3);
                            match e {
                                Err(x) => (Err(x), s4),
                                Ok(expr) => {
                                    let (semi, s5) = take_spec(s4, TokenView::SemiColon);
                                    match semi {
                                        Err(x) => (Err(x), s5),
                                        Ok(semi_span) => (
                                            Ok(
                                                LineNodeV {
                                                    line: LineV::Assignment(name, expr),
                                                    span: Span { start: var_span.start, end: semi_span.end },
                                                },
                                            ),
                                            s5,
                                        ),
                                    }
                                },
                            }
                        } else {
                            stalled(s3)
                        },
                    }
                },
                _ => (
                    Err(ErrorView { message: unexpected(t, "expected: Identifier"@), span: sp }),
                    s1.rest(),
                ),
            },
        },
    }
}

/// `while EXPR { LINE* }`, spanning from `while` to the closing brace.
pub open spec fn while_spec<T: Tokenizer>(s: T) -> (Result<LineNodeV, ErrorView>, T)
    decreases s.remaining(), 5nat,
{
    let (w, s1) = take_spec(s, TokenView::While);
    match w {
        Err(x) => (Err(x), s1),
        Ok(while_span) => if s1.remaining() < s.remaining() {
            let (c, s2) = expression_spec(s1);
            match c {
                Err(x) => (Err(x), s2),
                Ok(cond) => {
                    let (o, s3) = take_spec(s2, TokenView::OpeningCurlyBracket);
                    match o {
                        Err(x) => (Err(x), s3),
                        Ok(_) => if s3.remaining() < s.remaining() {
                            let (b, s4) = body_spec(s3, seq![]);
                            match b {
                                Err(x) => (Err(x), s4),
                                Ok(lines) => {
                                    let (cl, s5) = take_spec(s4, TokenView::ClosingCurlyBracket);
                                    match cl {
                                        Err(x) => (Err(x), s5),
                                        Ok(close) => (
                                            Ok(
                                                LineNodeV {
                                                    line: LineV::Loop(cond, lines),
                                                    span: Span { start: while_span.start, end: close.end },
                                                },
                                            ),
                                            s5,
                                        ),
                                    }
                                },
                            }
                        } else {
                            stalled(s3)
                        },
                    }
                },
            }
        } else {
            stalled(s1)
        },
    }
}

/// Statements up to a closing brace, which stays unconsumed.
pub open spec fn body_spec<T: Tokenizer>(s: T, acc: Seq<LineNodeV>) -> (Result<Seq<LineNodeV>, ErrorView>, T)
    decreases s.remaining(), 7nat,
{
    match s.front() {
        Err(x) => (Err(x), s),
        Ok((t, _)) => if kind(t) == kind(TokenView::ClosingCurlyBracket) {
            (Ok(acc), s)
        } else {
            let (l, s1) = line_spec(s);
            match l {
                Err(x) => (Err(x), s1),
                Ok(line) => if s1.remaining() < s.remaining() {
                    body_spec(s1, acc.push(line))
                } else {
                    stalled(s1)
                },
            }
        },
    }
}

/// `NAME = EXPR ;` or `NAME ( ARGS ) ;`, told apart by the token after the
/// name; a call statement spans to the semicolon, its call to the parenthesis.
pub open spec fn reassign_or_call_spec<T: Tokenizer>(s: T) -> (Result<LineNodeV, ErrorView>, T)
    decreases s.remaining(), 5nat,
{
    match s.front() {
        Err(x) => (Err(x), s.rest()),
        Ok((t, sp)) => match t {
            TokenView::Identifier(name) => {
                let s1 = s.rest();
                match s1.front() {
                    Err(x) => (Err(x), s1),
                    Ok((t1, _)) => if kind(t1) == kind(TokenView::Equals) {
                        let s2 = s1.rest();
                        if s2.remaining() < s.remaining() {
                            let (e, s3) = expression_spec(s2);
                            match e {
                                Err(x) => (Err(x), s3),
                                Ok(expr) => {
                                    let (semi, s4) = take_spec(s3, TokenView::SemiColon);
                                    match semi {
                                        Err(x) => (Err(x), s4),
                                        Ok(semi_span) => (
                                            Ok(
                                                LineNodeV {
                                                    line: LineV::Reassignment(name, expr),
                                                    span: Span { start: sp.start, end: semi_span.end },
                                                },
                                            ),
                                            s4,
                                        ),
                                    }
                                },
                            }
                        } else {
                            stalled(s2)
                        }
                    } else {
                        let (o, s2) = take_spec(s1, TokenView::OpeningParenthesis);
                        match o {
                            Err(x) => (Err(x), s2),
                            Ok(_) => if s2.remaining() < s.remaining() {
                                let (a, s3) = arguments_spec(s2);
                                match a {
                                    Err(x) => (Err(x), s3),
                                    Ok(args) => {
                                        let (c, s4) = take_spec(s3, TokenView::ClosingParenthesis);
                                        match c {
                                            Err(x) => (Err(x), s4),
                                            Ok(close) => {
                                                let (semi, s5) = take_spec(s4, TokenView::SemiColon);
                                                match semi {
                                                    Err(x) => (Err(x), s5),
                                                    Ok(semi_span) => (
                                                        Ok(
                                                            LineNodeV {
                                                                line: LineV::Call(
                                                                    CallV {
                                                                        name,
                                                                        args,
                                                                        span: Span { start: sp.start, end: close.end },
                                                                    },
                                                                ),
                                                                span: Span { start: sp.start, end: semi_span.end },
                                                            },
                                                        ),
                                                        s5,
                                                    ),
                                                }
                                            },
                                        }
                                    },
                                }
                            } else {
                                stalled(s2)
                            },
                        }
                    },
                }
            },
            _ => (
                Err(ErrorView { message: unexpected(t, "expected: Identifier"@), span: sp }),
                s.rest(),
            ),
        },
    }
}

/// One statement, chosen by its first token.
pub open spec fn line_spec<T: Tokenizer>(s: T) -> (Result<LineNodeV, ErrorView>, T)
    decreases s.remaining(), 6nat,
{
    match s.front() {
        Err(x) => (Err(x), s),
        Ok((t, sp)) => match t {
            TokenView::Var => assignment_spec(s),
            TokenView::While => while_spec(s),
            TokenView::Identifier(_) => reassign_or_call_spec(s),
            _ => (
                Err(ErrorView { message: unexpected(t, "expected: Var, While, Identifier"@), span: sp }),
                s,
            ),
        },
    }
}

/// Statements up to the end of input, which is consumed; the program spans
/// from its first token to the end of its last statement.
pub open spec fn program_lines_spec<T: Tokenizer>(s: T, acc: Seq<LineNodeV>, span: Span) -> (Result<ProgramV, ErrorView>, T)
    decreases s.remaining(), 8nat,
{
    match s.front() {
        Err(x) => (Err(x), s),
        Ok((t, _)) => if t is Eof {
            let (e, s1) = take_spec(s, TokenView::Eof);
            match e {
                Err(x) => (Err(x), s1),
                Ok(_) => (Ok(ProgramV { lines: acc, span }), s1),
            }
        } else {
            let (l, s1) = line_spec(s);
            match l {
                Err(x) => (Err(x), s1),
                Ok(line) => if s1.remaining() < s.remaining() {
                    program_lines_spec(s1, acc.push(line), Span { start: span.start, end: line.span.end })
                } else {
                    stalled(s1)
                },
            }
        },
    }
}

/// A whole program.
pub open spec fn program_spec<T: Tokenizer>(s: T) -> (Result<ProgramV, ErrorView>, T) {
    match s.front() {
        Err(x) => (Err(x), s),
        Ok((_, sp)) => program_lines_spec(s, seq![], Span { start: sp.start, end: sp.start }),
    }
}

proof fn lemma_same_line<T: Tokenizer>(a: T, b: T)
    requires
        same(a, b),
    ensures
        line_spec(a).0 == line_spec(b).0,
        same(line_spec(a).1, line_spec(b).1),
        assignment_spec(a) == assignment_spec(b),
        while_spec(a) == while_spec(b),
        reassign_or_call_spec(a) == reassign_or_call_spec(b),
{
    assert(assignment_spec(a) == assignment_spec(b));
    assert(while_spec(a) == while_spec(b));
    assert(reassign_or_call_spec(a) == reassign_or_call_spec(b));
}

/// The statement facts of `lemma_same_line` alone, for loops whose proofs
/// would otherwise carry the facts about every kind of statement.
proof fn lemma_same_statement<T: Tokenizer>(a: T, b: T)
    requires
        same(a, b),
    ensures
        line_spec(a).0 == line_spec(b).0,
        same(line_spec(a).1, line_spec(b).1),
{
    lemma_same_line(a, b);
}

proof fn lemma_lines_push(s: Seq<AstNode<Line>>, x: AstNode<Line>)
    ensures
        lines_v(s.push(x)) == lines_v(s).push(line_v(x)),
{
    assert(s.push(x).subrange(0, s.len() as int) =~= s);
}

proof fn lemma_same_expression<T: Tokenizer>(a: T, b: T)
    requires
        same(a, b),
    ensures
        expression_spec(a) == expression_spec(b),
{
    assert(simple_spec(a) == simple_spec(b));
    assert(operator_spec(a, 0) == operator_spec(b, 0));
}

proof fn lemma_same_trans<T: Tokenizer>(a: T, b: T, c: T)
    requires
        same(a, b),
        same(b, c),
    ensures
        same(a, c),
{
}

proof fn lemma_exprs_push(s: Seq<AstNode<Expression>>, x: AstNode<Expression>)
    ensures
        exprs_v(s.push(x)) == exprs_v(s).push(expr_v(x)),
{
    assert(s.push(x).subrange(0, s.len() as int) =~= s);
}

/// A recursive-descent parser over a tokenizer.
pub struct Parser<T: Tokenizer> {
    tokenizer: T,
}

impl<T: Tokenizer> Parser<T> {
    pub fn new(tokenizer: T) -> (r: Parser<T>)
        requires
            tokenizer.wf(),
        ensures
            r.tokens() == tokenizer,
            r.left() == tokenizer.remaining(),
            r.wf(),
            r.position() == tokenizer.position(),
    {
        Parser { tokenizer }
    }

    /// What is left of the input.
    pub closed spec fn left(&self) -> nat {
        self.tokenizer.remaining()
    }

    pub closed spec fn wf(&self) -> bool {
        self.tokenizer.wf()
    }

    /// Where the next token starts at the earliest.
    pub closed spec fn position(&self) -> int {
        self.tokenizer.position()
    }

    /// The tokenizer the parser reads from.
    pub closed spec fn tokens(&self) -> T {
        self.tokenizer
    }

    /// Consumes the next token where it is of the kind of `expected`, giving its span.
    fn take(&mut self, expected: &Token) -> (r: Result<Span, ParserError>)
        requires
            old(self).wf(),
        ensures
            final(self).tokens() == take_spec(old(self).tokens(), expected@).1,
            res_v(r, |x: Span| x) == take_spec(old(self).tokens(), expected@).0,
            final(self).wf(),
            final(self).position() >= old(self).position(),
            r matches Ok(sp) ==> old(self).position() <= sp.start && sp.start <= sp.end && sp.end
                <= final(self).position(),
            final(self).left() <= old(self).left(),
            r is Ok && !(expected@ is Eof) ==> final(self).left() < old(self).left(),
    {
        let found = self.tokenizer.next()?;
        if token_kind(&found.token) == token_kind(expected) {
            Ok(found.span)
        } else {
            let name = match expected {
                Token::Operator(_) => String::from_str("expected: Token::Operator(_)"),
                _ => String::from_str("expected: Token::").concat(kind_text(expected).as_str()),
            };
            Err(unexpected_error(&found, name.as_str()))
        }
    }

    /// Whether the next token is of the kind of `t`, without consuming it.
    fn next_is(&mut self, t: &Token) -> (r: Result<bool, ParserError>)
        requires
            old(self).wf(),
        ensures
            same(final(self).tokens(), old(self).tokens()),
            match old(self).tokens().front() {
                Ok((x, _)) => r == Ok::<bool, ParserError>(kind(x) == kind(t@)),
                Err(e) => r matches Err(y) && y@ == e,
            },
            final(self).wf(),
            final(self).position() >= old(self).position(),
            final(self).left() <= old(self).left(),
    {
        let next = self.tokenizer.peek()?;
        Ok(token_kind(&next.token) == token_kind(t))
    }

    pub fn parse(&mut self) -> (r: Result<AstNode<Program>, ParserError>)
        requires
            old(self).wf(),
        ensures
            res_v(r, |p: AstNode<Program>| program_v(p)) == program_spec(old(self).tokens()).0,
            same(final(self).tokens(), program_spec(old(self).tokens()).1),
            final(self).wf(),
            final(self).position() >= old(self).position(),
            r matches Ok(p) ==> old(self).position() <= p.span.start && p.span.end <= final(self).position() && program_spans_ok(p),
            final(self).left() <= old(self).left(),
    {
        let ghost s0 = self.tokens();
        let mut span = self.tokenizer.get_empty_span()?;
        let ghost mut st = s0;
        let mut lines: Vec<AstNode<Line>> = Vec::new();
        loop
            invariant
                self.left() <= old(self).left(),
                self.wf(),
                s0 == old(self).tokens(),
                same(self.tokens(), st),
                program_spec(s0) == program_lines_spec(st, lines_v(lines@), span),
                old(self).position() <= span.start <= span.end <= self.position(),
                forall|i: int|
                    #![trigger lines@[i]]
                    0 <= i < lines@.len() ==> inside(lines@[i].span, span) && line_spans_ok(
                        lines@[i],
                    ),
            decreases self.left(),
        {
            let ghost before = self.tokens();
            if self.next_is(&Token::Eof)? {
                proof {
                    lemma_same_trans(self.tokens(), before, st);
                }
                self.take(&Token::Eof)?;
                return Ok(AstNode { node: Program { lines }, span });
            }
            proof {
                lemma_same_trans(self.tokens(), before, st);
                lemma_same_statement(self.tokens(), st);
            }
            let node = self.parse_line()?;
            proof {
                lemma_lines_push(lines@, node);
                st = line_spec(st).1;
            }
            span.end = node.span.end;
            lines.push(node);
        }
    }

    fn parse_line(&mut self) -> (r: Result<AstNode<Line>, ParserError>)
        requires
            old(self).wf(),
        ensures
            res_v(r, |l: AstNode<Line>| line_v(l)) == line_spec(old(self).tokens()).0,
            same(final(self).tokens(), line_spec(old(self).tokens()).1),
            final(self).wf(),
            final(self).position() >= old(self).position(),
            r matches Ok(l) ==> old(self).position() <= l.span.start && l.span.end <= final(self).position() && line_spans_ok(l),
            final(self).left() <= old(self).left(),
            r is Ok ==> final(self).left() < old(self).left(),
        decreases old(self).left(), 5nat,
    {
        let ghost s0 = self.tokens();
        let next = self.tokenizer.peek()?;
        proof {
            lemma_same_line(self.tokens(), s0);
        }
        match next.token {
            Token::Var => self.parse_assignment(),
            Token::While => self.parse_loop(),
            Token::Identifier(_) => self.parse_reassignment_or_call(),
            _ => Err(unexpected_error(&next, "expected: Var, While, Identifier")),
        }
    }

    fn parse_assignment(&mut self) -> (r: Result<AstNode<Line>, ParserError>)
        requires
            old(self).wf(),
        ensures
            res_v(r, |l: AstNode<Line>| line_v(l)) == assignment_spec(old(self).tokens()).0,
            same(final(self).tokens(), assignment_spec(old(self).tokens()).1),
            final(self).wf(),
            final(self).position() >= old(self).position(),
            r matches Ok(l) ==> old(self).position() <= l.span.start && l.span.end <= final(self).position() && line_spans_ok(l),
            final(self).left() <= old(self).left(),
            r is Ok ==> final(self).left() < old(self).left(),
            r matches Ok(l) ==> l.node is Assignment,
        decreases old(self).left(), 4nat,
    {
        let ghost s0 = self.tokens();
        proof {
            s0.lemma_rest();
        }
        let var_span = self.take(&Token::Var)?;
        proof {
            self.tokens().lemma_rest();
        }
        let found = self.tokenizer.next()?;
        let identifier = match found.token {
            Token::Identifier(name) => name,
            _ => {
                return Err(unexpected_error(&found, "expected: Identifier"));
            },
        };
        proof {
            self.tokens().lemma_rest();
        }
        self.take(&Token::Equals)?;
        let expression = self.parse_expression()?;
        let semicolon_span = self.take(&Token::SemiColon)?;
        Ok(AstNode {
            node: Line::Assignment(identifier, expression),
            span: Span { start: var_span.start, end: semicolon_span.end },
        })
    }

    fn parse_loop(&mut self) -> (r: Result<AstNode<Line>, ParserError>)
        requires
            old(self).wf(),
        ensures
            res_v(r, |l: AstNode<Line>| line_v(l)) == while_spec(old(self).tokens()).0,
            same(final(self).tokens(), while_spec(old(self).tokens()).1),
            final(self).wf(),
            final(self).position() >= old(self).position(),
            r matches Ok(l) ==> old(self).position() <= l.span.start && l.span.end <= final(self).position() && line_spans_ok(l),
            final(self).left() <= old(self).left(),
            r is Ok ==> final(self).left() < old(self).left(),
            r matches Ok(l) ==> l.node is Loop,
        decreases old(self).left(), 4nat,
    {
        let ghost s0 = self.tokens();
        proof {
            s0.lemma_rest();
        }
        let while_span = self.take(&Token::While)?;
        let condition = self.parse_expression()?;
        proof {
            self.tokens().lemma_rest();
        }
        self.take(&Token::OpeningCurlyBracket)?;
        let ghost s3 = self.tokens();
        let ghost mut st = s3;
        let mut lines: Vec<AstNode<Line>> = Vec::new();
        loop
            invariant
                self.left() < old(self).left(),
                self.wf(),
                s0 == old(self).tokens(),
                s3.remaining() < s0.remaining(),
                same(self.tokens(), st),
                st.remaining() <= s3.remaining(),
                body_spec(s3, seq![]) == body_spec(st, lines_v(lines@)),
                while_spec(s0) == ({
                    let (b, s4) = body_spec(s3, seq![]);
                    match b {
                        Err(x) => (Err(x), s4),
                        Ok(ls) => {
                            let (cl, s5) = take_spec(s4, TokenView::ClosingCurlyBracket);
                            match cl {
                                Err(x) => (Err(x), s5),
                                Ok(close) => (
                                    Ok(
                                        LineNodeV {
                                            line: LineV::Loop(expr_v(condition), ls),
                                            span: Span { start: while_span.start, end: close.end },
                                        },
                                    ),
                                    s5,
                                ),
                            }
                        },
                    }
                }),
                old(self).position() <= while_span.start <= while_span.end,
                while_span.end <= condition.span.start,
                condition.span.end <= self.position(),
                expr_spans_ok(condition),
                forall|i: int|
                    #![trigger lines@[i]]
                    0 <= i < lines@.len() ==> while_span.start <= lines@[i].span.start
                        && lines@[i].span.end <= self.position() && line_spans_ok(lines@[i]),
            decreases self.left(),
        {
            let ghost before = self.tokens();
            if self.next_is(&Token::ClosingCurlyBracket)? {
                proof {
                    lemma_same_trans(self.tokens(), before, st);
                }
                let close_span = self.take(&Token::ClosingCurlyBracket)?;
                return Ok(AstNode {
                    node: Line::Loop(condition, lines),
                    span: Span { start: while_span.start, end: close_span.end },
                });
            }
            proof {
                lemma_same_trans(self.tokens(), before, st);
                lemma_same_statement(self.tokens(), st);
            }
            let line = self.parse_line()?;
            proof {
                lemma_lines_push(lines@, line);
                st = line_spec(st).1;
            }
            lines.push(line);
        }
    }

    fn parse_reassignment_or_call(&mut self) -> (r: Result<AstNode<Line>, ParserError>)
        requires
            old(self).wf(),
        ensures
            res_v(r, |l: AstNode<Line>| line_v(l)) == reassign_or_call_spec(old(self).tokens()).0,
            same(final(self).tokens(), reassign_or_call_spec(old(self).tokens()).1),
            final(self).wf(),
            final(self).position() >= old(self).position(),
            r matches Ok(l) ==> old(self).position() <= l.span.start && l.span.end <= final(self).position() && line_spans_ok(l),
            final(self).left() <= old(self).left(),
            r is Ok ==> final(self).left() < old(self).left(),
            r matches Ok(l) ==> l.node is Reassignment || l.node is Call,
        decreases old(self).left(), 4nat,
    {
        let found = self.tokenizer.next()?;
        let (identifier, identifier_span) = match found.token {
            Token::Identifier(name) => (name, found.span),
            _ => {
                return Err(unexpected_error(&found, "expected: Identifier"));
            },
        };
        if self.next_is(&Token::Equals)? {
            self.take(&Token::Equals)?;
            let expression = self.parse_expression()?;
            let semicolon_span = self.take(&Token::SemiColon)?;
            Ok(AstNode {
                node: Line::Reassignment(identifier, expression),
                span: Span { start: identifier_span.start, end: semicolon_span.end },
            })
        } else {
            self.take(&Token::OpeningParenthesis)?;
            let arguments = self.parse_arguments()?;
            let close_span = self.take(&Token::ClosingParenthesis)?;
            let semicolon_span = self.take(&Token::SemiColon)?;
            let call = AstNode {
                node: FunctionCall { name: identifier, arguments },
                span: Span { start: identifier_span.start, end: close_span.end },
            };
            Ok(AstNode {
                node: Line::Call(call),
                span: Span { start: identifier_span.start, end: semicolon_span.end },
            })
        }
    }

    fn parse_arguments(&mut self) -> (r: Result<Vec<AstNode<Expression>>, ParserError>)
        requires
            old(self).wf(),
        ensures
            res_v(r, |a: Vec<AstNode<Expression>>| exprs_v(a@)) == arguments_spec(old(self).tokens()).0,
            same(final(self).tokens(), arguments_spec(old(self).tokens()).1),
            final(self).wf(),
            final(self).position() >= old(self).position(),
            r matches Ok(args) ==> forall|i: int|
                #![trigger args@[i]]
                0 <= i < args@.len() ==> old(self).position() <= args@[i].span.start
                    && args@[i].span.end <= final(self).position() && expr_spans_ok(args@[i]),
            final(self).left() <= old(self).left(),
        decreases old(self).left(), 3nat,
    {
        let mut arguments: Vec<AstNode<Expression>> = Vec::new();
        let ghost s0 = self.tokens();
        if self.next_is(&Token::ClosingParenthesis)? {
            return Ok(arguments);
        }
        let ghost mut st = s0;
        loop
            invariant
                self.left() <= old(self).left(),
                self.wf(),
                self.position() >= old(self).position(),
                s0 == old(self).tokens(),
                same(self.tokens(), st),
                st.remaining() <= s0.remaining(),
                arguments_spec(s0) == arguments_from_spec(st, exprs_v(arguments@)),
                forall|i: int|
                    #![trigger arguments@[i]]
                    0 <= i < arguments@.len() ==> old(self).position() <= arguments@[i].span.start
                        && arguments@[i].span.end <= self.position() && expr_spans_ok(
                        arguments@[i],
                    ),
            decreases self.left(),
        {
            proof {
                lemma_same_expression(self.tokens(), st);
            }
            let e = self.parse_expression()?;
            proof {
                lemma_exprs_push(arguments@, e);
            }
            arguments.push(e);
            let ghost s1 = expression_spec(st).1;
            let ghost after = self.tokens();
            if self.next_is(&Token::ClosingParenthesis)? {
                proof {
                    lemma_same_trans(self.tokens(), after, s1);
                }
                return Ok(arguments);
            }
            proof {
                lemma_same_trans(self.tokens(), after, s1);
                self.tokens().lemma_rest();
            }
            self.take(&Token::Comma)?;
            proof {
                st = s1.rest();
            }
        }
    }

    /// An expression without operators: a number, an identifier or a call, or
    /// an expression in parentheses.
    fn parse_simple_expression(&mut self) -> (r: Result<AstNode<Expression>, ParserError>)
        requires
            old(self).wf(),
        ensures
            res_v(r, |e: AstNode<Expression>| expr_v(e)) == simple_spec(old(self).tokens()).0,
            same(final(self).tokens(), simple_spec(old(self).tokens()).1),
            final(self).wf(),
            final(self).position() >= old(self).position(),
            r matches Ok(e) ==> old(self).position() <= e.span.start && e.span.end <= final(self).position() && expr_spans_ok(e),
            final(self).left() <= old(self).left(),
            r is Ok ==> final(self).left() < old(self).left(),
        decreases old(self).left(), 0nat,
    {
        let ghost s0 = self.tokens();
        proof {
            s0.lemma_rest();
        }
        let found = self.tokenizer.next()?;
        match found.token {
            Token::Number(number) => Ok(AstNode { node: Expression::Number(number), span: found.span }),
            Token::OpeningParenthesis => {
                let expression = self.parse_expression()?;
                self.take(&Token::ClosingParenthesis)?;
                Ok(expression)
            },
            Token::Identifier(name) => {
                let span = found.span;
                let ghost s1 = self.tokens();
                proof {
                    s1.lemma_rest();
                }
                if self.next_is(&Token::OpeningParenthesis)? {
                    proof {
                        self.tokens().lemma_rest();
                    }
                    self.take(&Token::OpeningParenthesis)?;
                    let arguments = self.parse_arguments()?;
                    let close_span = self.take(&Token::ClosingParenthesis)?;
                    let call = AstNode {
                        node: FunctionCall { name, arguments },
                        span: Span { start: span.start, end: close_span.end },
                    };
                    proof {
                        assert forall|i: int|
                            #![trigger call.node.arguments@[i]]
                            0 <= i < call.node.arguments@.len() implies inside(
                            call.node.arguments@[i].span,
                            call.span,
                        ) && expr_spans_ok(call.node.arguments@[i]) by {
                            assert(arguments@[i] == call.node.arguments@[i]);
                        }
                        assert(call_spans_ok(call));
                        let cv = CallV { name: name@, args: exprs_v(arguments@), span: call.span };
                        assert(call_v(call) == cv);
                        let nv = NodeV { expr: ExprV::Call(cv), span };
                        assert(expr_v(AstNode { node: Expression::Call(call), span }) == nv);
                        assert(simple_spec(s0).0 == Ok::<NodeV, ErrorView>(nv));
                    }
                    Ok(AstNode { node: Expression::Call(call), span })
                } else {
                    Ok(AstNode { node: Expression::Identifier(name), span })
                }
            },
            _ => Err(
                unexpected_error(&found, "expected number, opening parenthesis, identifier"),
            ),
        }
    }

    pub fn parse_expression(&mut self) -> (r: Result<AstNode<Expression>, ParserError>)
        requires
            old(self).wf(),
        ensures
            res_v(r, |e: AstNode<Expression>| expr_v(e)) == expression_spec(old(self).tokens()).0,
            same(final(self).tokens(), expression_spec(old(self).tokens()).1),
            final(self).wf(),
            final(self).position() >= old(self).position(),
            r matches Ok(e) ==> old(self).position() <= e.span.start && e.span.end <= final(self).position() && expr_spans_ok(e),
            final(self).left() <= old(self).left(),
            r is Ok ==> final(self).left() < old(self).left(),
        decreases old(self).left(), 2nat,
    {
        self.parse_operator_expression(0)
    }

    /// An expression whose operators bind at least as tightly as `precedence`;
    /// the right operand of each operator is parsed at that operator's own
    /// precedence.
    fn parse_operator_expression(&mut self, precedence: u8) -> (r: Result<
        AstNode<Expression>,
        ParserError,
    >)
        requires
            old(self).wf(),
        ensures
            res_v(r, |e: AstNode<Expression>| expr_v(e)) == operator_spec(old(self).tokens(), precedence).0,
            same(final(self).tokens(), operator_spec(old(self).tokens(), precedence).1),
            final(self).wf(),
            final(self).position() >= old(self).position(),
            r matches Ok(e) ==> old(self).position() <= e.span.start && e.span.end <= final(self).position() && expr_spans_ok(e),
            final(self).left() <= old(self).left(),
            r is Ok ==> final(self).left() < old(self).left(),
        decreases old(self).left(), 1nat,
    {
        let ghost s0 = self.tokens();
        let mut left = self.parse_simple_expression()?;
        let ghost mut st = simple_spec(s0).1;
        loop
            invariant
                self.left() < old(self).left(),
                self.wf(),
                old(self).position() <= left.span.start,
                left.span.end <= self.position(),
                expr_spans_ok(left),
                s0 == old(self).tokens(),
                same(self.tokens(), st),
                operator_spec(s0, precedence) == operator_loop_spec(expr_v(left), st, precedence),
            decreases self.left(),
        {
            let ghost before = self.tokens();
            let next = match self.tokenizer.peek() {
                Ok(t) => t,
                Err(e) => {
                    proof {
                        lemma_same_trans(self.tokens(), before, st);
                    }
                    return Err(e);
                },
            };
            proof {
                lemma_same_trans(self.tokens(), before, st);
            }
            let op = match next.token {
                Token::Operator(op) => op,
                _ => {
                    return Ok(left);
                },
            };
            let next_precedence = operator_precedence(&op);
            if next_precedence < precedence {
                return Ok(left);
            }
            proof {
                self.tokens().lemma_rest();
            }
            self.take(&Token::Operator(op))?;
            let right = self.parse_operator_expression(next_precedence)?;
            let result_span = Span { start: left.span.start, end: right.span.end };
            proof {
                st = operator_spec(st.rest(), next_precedence).1;
            }
            left = AstNode {
                node: Expression::BinaryOperator(Box::new(left), op, Box::new(right)),
                span: result_span,
            };
        }
    }
}

} // verus!

use minilang::lexer::{Operator, SimpleTokenizer, Token, TokenQueue};
use minilang::parser::{AstNode, Expression, FunctionCall, Line, Parser};
use minilang::utils::Span;

fn ast<N>(node: N) -> AstNode<N> {
    AstNode {
        node,
        span: Span { start: 0, end: 0 },
    }
}

fn tokenizer<const C: usize>(tokens: [Token; C]) -> TokenQueue {
    TokenQueue::new(Vec::from(tokens))
}

#[test]
fn parse_operator_expression_simple() {
    let tokenizer = tokenizer([
        Token::Number(1),
        Token::Operator(Operator::Plus),
        Token::Number(2),
        Token::Eof,
    ]);
    let mut parser = Parser::new(tokenizer);
    let exp = parser.parse_expression().unwrap();
    let expected = ast(Expression::BinaryOperator(
        Box::new(ast(Expression::Number(1))),
        Operator::Plus,
        Box::new(ast(Expression::Number(2))),
    ));

    assert_eq!(exp, expected);
}

#[test]
fn parse_operator_expression_precedence_left() {
    let tokenizer = tokenizer([
        Token::Number(1),
        Token::Operator(Operator::Multiplication),
        Token::Number(2),
        Token::Operator(Operator::Plus),
        Token::Number(3),
        Token::Eof,
    ]);
    let mut parser = Parser::new(tokenizer);
    let exp = parser.parse_expression().unwrap();
    let expected = ast(Expression::BinaryOperator(
        Box::new(ast(Expression::BinaryOperator(
            Box::new(ast(Expression::Number(1))),
            Operator::Multiplication,
            Box::new(ast(Expression::Number(2))),
        ))),
        Operator::Plus,
        Box::new(ast(Expression::Number(3))),
    ));

    assert_eq!(exp, expected);
}

#[test]
fn parse_operator_expression_precedence_right() {
    let tokenizer = tokenizer([
        Token::Number(1),
        Token::Operator(Operator::Plus),
        Token::Number(2),
        Token::Operator(Operator::Multiplication),
        Token::Number(3),
        Token::Eof,
    ]);
    let mut parser = Parser::new(tokenizer);
    let exp = parser.parse_expression().unwrap();
    let expected = ast(Expression::BinaryOperator(
        Box::new(ast(Expression::Number(1))),
        Operator::Plus,
        Box::new(ast(Expression::BinaryOperator(
            Box::new(ast(Expression::Number(2))),
            Operator::Multiplication,
            Box::new(ast(Expression::Number(3))),
        ))),
    ));

    assert_eq!(exp, expected);
}

/// The expression's structure, spans left out.
fn shape(e: &Expression) -> String {
    match e {
        Expression::Number(n) => n.to_string(),
        Expression::Identifier(name) => name.clone(),
        Expression::BinaryOperator(l, op, r) => {
            format!("({} {:?} {})", shape(&l.node), op, shape(&r.node))
        }
        Expression::Call(call) => {
            let args: Vec<String> = call.node.arguments.iter().map(|a| shape(&a.node)).collect();
            format!("{}({})", call.node.name, args.join(", "))
        }
    }
}

fn parse_expression_text(source: &str) -> AstNode<Expression> {
    Parser::new(SimpleTokenizer::new(source))
        .parse_expression()
        .unwrap()
}

#[test]
fn precedence_from_source() {
    assert_eq!(shape(&parse_expression_text("1 * 2 + 3").node), "((1 Multiplication 2) Plus 3)");
    assert_eq!(shape(&parse_expression_text("1 + 2 * 3").node), "(1 Plus (2 Multiplication 3))");
}

#[test]
fn equal_precedence_groups_to_the_right() {
    let e = parse_expression_text("1 - 2 - 3");
    assert_eq!(shape(&e.node), "(1 Minus (2 Minus 3))");
    assert_eq!(e.span, Span { start: 0, end: 9 });
    assert_eq!(shape(&parse_expression_text("1 < 2 < 3").node), "(1 LessThan (2 LessThan 3))");
}

#[test]
fn parentheses_return_the_inner_node() {
    let e = parse_expression_text("(1 + 2) * 3");
    assert_eq!(shape(&e.node), "((1 Plus 2) Multiplication 3)");
    match &e.node {
        Expression::BinaryOperator(l, _, _) => assert_eq!(l.span, Span { start: 1, end: 6 }),
        _ => panic!("expected an operator"),
    }
}

#[test]
fn call_expression_spans_only_the_name() {
    let e = parse_expression_text("print(1, x)");
    assert_eq!(e.span, Span { start: 0, end: 5 });
    match &e.node {
        Expression::Call(call) => {
            assert_eq!(call.span, Span { start: 0, end: 11 });
            assert_eq!(call.node.name, "print");
            assert_eq!(call.node.arguments.len(), 2);
        }
        _ => panic!("expected a call"),
    }
}

#[test]
fn program_lines_and_spans() {
    let source = " var a = 1; a = a + 1; print(a); while a < 3 { a = a + 1; } ";
    let program = Parser::new(SimpleTokenizer::new(source)).parse().unwrap();
    assert_eq!(program.span, Span { start: 1, end: 59 });
    let lines = &program.node.lines;
    assert_eq!(lines.len(), 4);
    assert!(matches!(lines[0].node, Line::Assignment(ref n, _) if n == "a"));
    assert_eq!(lines[0].span, Span { start: 1, end: 11 });
    assert!(matches!(lines[1].node, Line::Reassignment(ref n, _) if n == "a"));
    assert_eq!(lines[1].span, Span { start: 12, end: 22 });
    match &lines[2].node {
        Line::Call(call) => {
            assert_eq!(call.span, Span { start: 23, end: 31 });
            assert_eq!(lines[2].span, Span { start: 23, end: 32 });
        }
        _ => panic!("expected a call"),
    }
    match &lines[3].node {
        Line::Loop(_, body) => assert_eq!(body.len(), 1),
        _ => panic!("expected a loop"),
    }
    assert_eq!(lines[3].span, Span { start: 33, end: 59 });
}

#[test]
fn call_with_no_arguments() {
    let program = Parser::new(SimpleTokenizer::new("print();")).parse().unwrap();
    match &program.node.lines[0].node {
        Line::Call(AstNode {
            node: FunctionCall { name, arguments },
            ..
        }) => {
            assert_eq!(name, "print");
            assert!(arguments.is_empty());
        }
        _ => panic!("expected a call"),
    }
}

#[test]
fn syntax_errors_name_the_token_found() {
    let error = Parser::new(SimpleTokenizer::new("var = 1;")).parse().unwrap_err();
    assert_eq!(error.message, "Unexpected token Equals, expected: Identifier");
    assert_eq!(error.span, Span { start: 4, end: 5 });

    let error = Parser::new(SimpleTokenizer::new("var x = 1")).parse().unwrap_err();
    assert_eq!(error.message, "Unexpected token Eof, expected: Token::SemiColon");
    assert_eq!(error.span, Span { start: 9, end: 10 });

    let error = Parser::new(SimpleTokenizer::new("5;")).parse().unwrap_err();
    assert_eq!(error.message, "Unexpected token Number(5), expected: Var, While, Identifier");

    let error = Parser::new(SimpleTokenizer::new("print(1,);")).parse().unwrap_err();
    assert_eq!(
        error.message,
        "Unexpected token ClosingParenthesis, expected number, opening parenthesis, identifier"
    );

    let error = Parser::new(SimpleTokenizer::new("x 1;")).parse().unwrap_err();
    assert_eq!(
        error.message,
        "Unexpected token Number(1), expected: Token::OpeningParenthesis"
    );

    let error = Parser::new(SimpleTokenizer::new("print(a b);")).parse().unwrap_err();
    assert_eq!(
        error.message,
        "Unexpected token Identifier(\"b\"), expected: Token::Comma"
    );
}

#[test]
fn lexing_errors_reach_the_parser() {
    let error = Parser::new(SimpleTokenizer::new("var x = $;")).parse().unwrap_err();
    assert_eq!(error.message, "Unexpected token!");
    assert_eq!(error.span, Span { start: 8, end: 10 });
}

#[test]
fn reparsing_a_span_gives_the_same_expression() {
    let source = "var r = a + 2 * b - 3 < 7 * c;";
    let program = Parser::new(SimpleTokenizer::new(source)).parse().unwrap();
    let expression = match &program.node.lines[0].node {
        Line::Assignment(_, e) => e,
        _ => panic!("expected an assignment"),
    };
    let mut pending = vec![expression];
    while let Some(e) = pending.pop() {
        let text = &source[e.span.start..e.span.end];
        let again = parse_expression_text(text);
        assert_eq!(shape(&again.node), shape(&e.node));
        if let Expression::BinaryOperator(l, _, r) = &e.node {
            pending.push(l);
            pending.push(r);
        }
    }
}

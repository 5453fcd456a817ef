use minilang::lexer::{token_from_matches, Operator, SimpleTokenizer, Token, TokenQueue, Tokenizer};
use minilang::utils::Span;

#[test]
fn empty() {
    let mut tokenizer = SimpleTokenizer::new("");
    assert_eq!(tokenizer.collect_tokens().unwrap(), [Token::Eof]);
}

#[test]
fn addition() {
    let mut tokenizer = SimpleTokenizer::new("1 + 2");
    assert_eq!(
        tokenizer.collect_tokens().unwrap(),
        [
            Token::Number(1),
            Token::Operator(Operator::Plus),
            Token::Number(2),
            Token::Eof,
        ]
    );
}

#[test]
fn peek() {
    let mut tokenizer = SimpleTokenizer::new("1 asd");

    assert_eq!(tokenizer.peek().unwrap().token, Token::Number(1));
    tokenizer.next().unwrap();
    assert_eq!(tokenizer.peek().unwrap().token, Token::Identifier("asd".into()));
    assert_eq!(tokenizer.peek().unwrap().token, Token::Identifier("asd".into()));
}

#[test]
fn peek_twice_returns_the_same_token_and_span() {
    let mut tokenizer = SimpleTokenizer::new("  while x");
    let first = tokenizer.peek().unwrap();
    let second = tokenizer.peek().unwrap();
    assert_eq!(first, second);
    assert_eq!(first.token, Token::While);
    assert_eq!(first.span, Span { start: 2, end: 7 });
    assert_eq!(tokenizer.next().unwrap(), first);
    assert_eq!(tokenizer.next().unwrap().token, Token::Identifier("x".into()));
}

#[test]
fn token_spans_are_byte_ranges() {
    let mut tokenizer = SimpleTokenizer::new("ab = 12;");
    assert_eq!(tokenizer.next().unwrap().span, Span { start: 0, end: 2 });
    assert_eq!(tokenizer.next().unwrap().span, Span { start: 3, end: 4 });
    assert_eq!(tokenizer.next().unwrap().span, Span { start: 5, end: 7 });
    assert_eq!(tokenizer.next().unwrap().span, Span { start: 7, end: 8 });
    let eof = tokenizer.next().unwrap();
    assert_eq!(eof.token, Token::Eof);
    assert_eq!(eof.span, Span { start: 8, end: 9 });
}

#[test]
fn keywords_and_identifiers() {
    let mut tokenizer = SimpleTokenizer::new("var variable while whiles x_1 vars");
    assert_eq!(
        tokenizer.collect_tokens().unwrap(),
        [
            Token::Var,
            Token::Identifier("variable".into()),
            Token::While,
            Token::Identifier("whiles".into()),
            Token::Identifier("x_1".into()),
            Token::Identifier("vars".into()),
            Token::Eof,
        ]
    );
}

#[test]
fn punctuation_and_operators() {
    let mut tokenizer = SimpleTokenizer::new("(){};=,+-*<");
    assert_eq!(
        tokenizer.collect_tokens().unwrap(),
        [
            Token::OpeningParenthesis,
            Token::ClosingParenthesis,
            Token::OpeningCurlyBracket,
            Token::ClosingCurlyBracket,
            Token::SemiColon,
            Token::Equals,
            Token::Comma,
            Token::Operator(Operator::Plus),
            Token::Operator(Operator::Minus),
            Token::Operator(Operator::Multiplication),
            Token::Operator(Operator::LessThan),
            Token::Eof,
        ]
    );
}

#[test]
fn whitespace_and_newlines_are_skipped() {
    let mut tokenizer = SimpleTokenizer::new("\n\t 7 \r\n  8  ");
    assert_eq!(
        tokenizer.collect_tokens().unwrap(),
        [Token::Number(7), Token::Number(8), Token::Eof]
    );
}

#[test]
fn unexpected_character_is_an_error_over_the_rest() {
    let mut tokenizer = SimpleTokenizer::new("1 # 2");
    tokenizer.next().unwrap();
    let error = tokenizer.next().unwrap_err();
    assert_eq!(error.message, "Unexpected token!");
    assert_eq!(error.span, Span { start: 2, end: 5 });
}

#[test]
fn number_too_large_is_an_error() {
    let mut tokenizer = SimpleTokenizer::new("2147483648");
    let error = tokenizer.next().unwrap_err();
    assert_eq!(error.message, "Number literal out of range");
    assert_eq!(error.span, Span { start: 0, end: 10 });
    let mut largest = SimpleTokenizer::new("2147483647");
    assert_eq!(largest.next().unwrap().token, Token::Number(2147483647));
}

#[test]
fn tokens_end_with_one_eof_and_are_deterministic() {
    let source = "var a = 2; while a < 10 { a = a * 2; }";
    let first = SimpleTokenizer::new(source).collect_tokens().unwrap();
    let second = SimpleTokenizer::new(source).collect_tokens().unwrap();
    assert_eq!(first, second);
    assert_eq!(first.last(), Some(&Token::Eof));
    assert_eq!(first.iter().filter(|t| **t == Token::Eof).count(), 1);
    assert_eq!(first.len(), 18);
}

#[test]
fn empty_span_sits_at_the_next_token() {
    let mut tokenizer = SimpleTokenizer::new("   x");
    assert_eq!(tokenizer.get_empty_span().unwrap(), Span { start: 3, end: 3 });
    assert_eq!(tokenizer.next().unwrap().token, Token::Identifier("x".into()));
}

#[test]
fn token_queue_hands_out_its_tokens() {
    let mut queue = TokenQueue::new(vec![Token::Number(3), Token::Eof]);
    assert_eq!(queue.peek().unwrap().token, Token::Number(3));
    assert_eq!(queue.collect_tokens().unwrap(), [Token::Number(3), Token::Eof]);
    assert_eq!(queue.next().unwrap_err().message, "Empty");
}

#[test]
fn reading_after_end_of_input_fails() {
    let mut tokenizer = SimpleTokenizer::new("");
    let eof = tokenizer.next().unwrap();
    assert_eq!(eof.token, Token::Eof);
    assert_eq!(eof.span, Span { start: 0, end: 1 });
    let error = tokenizer.next().unwrap_err();
    assert_eq!(error.message, "Cannot read after EOF");
    assert_eq!(tokenizer.next().unwrap_err().message, "Cannot read after EOF");

    let mut tokenizer = SimpleTokenizer::new("x  ");
    tokenizer.next().unwrap();
    assert_eq!(tokenizer.peek().unwrap().span, Span { start: 3, end: 4 });
    assert_eq!(tokenizer.next().unwrap().token, Token::Eof);
    assert_eq!(tokenizer.peek().unwrap_err().message, "Cannot read after EOF");
}

#[test]
fn rules_apply_to_given_matches() {
    let t = token_from_matches("abc + 1", 0, Some((0, 3)), None).unwrap();
    assert_eq!(t.token, Token::Identifier("abc".into()));
    assert_eq!(t.span, Span { start: 0, end: 3 });

    let t = token_from_matches("x = while", 4, Some((0, 5)), None).unwrap();
    assert_eq!(t.token, Token::While);
    assert_eq!(t.span, Span { start: 4, end: 9 });

    let t = token_from_matches("12x", 0, None, Some((0, 2))).unwrap();
    assert_eq!(t.token, Token::Number(12));
    assert_eq!(t.span, Span { start: 0, end: 2 });

    let t = token_from_matches("(1", 0, None, Some((1, 2))).unwrap();
    assert_eq!(t.token, Token::OpeningParenthesis);

    let error = token_from_matches("99999999999", 0, None, Some((0, 11))).unwrap_err();
    assert_eq!(error.message, "Number literal out of range");

    let error = token_from_matches("#1", 0, None, Some((1, 2))).unwrap_err();
    assert_eq!(error.message, "Unexpected token!");
    assert_eq!(error.span, Span { start: 0, end: 2 });
}

#[test]
fn non_ascii_digits_are_an_invalid_number() {
    let mut tokenizer = SimpleTokenizer::new("\u{663}\u{664}");
    let error = tokenizer.next().unwrap_err();
    assert_eq!(error.message, "Invalid number literal");
    assert_eq!(error.span, Span { start: 0, end: 4 });
}

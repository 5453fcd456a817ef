use vstd::prelude::*;
use vstd::string::*;
use vstd::utf8::*;

use crate::number::{bounded_digits, digits_up_to, is_digit};
use crate::utils::{error_at, lemma_boundary_in_suffix, ErrorView, Span, SpanError};

verus! {

pub type TokenizerError = SpanError;

#[derive(PartialEq, Eq, Structural, Debug, Clone, Copy)]
pub enum Operator {
    Plus,
    Minus,
    Multiplication,
    LessThan,
}

/// How tightly an operator binds: higher binds tighter.
pub open spec fn precedence(op: Operator) -> u8 {
    match op {
        Operator::LessThan => 1,
        Operator::Plus | Operator::Minus => 2,
        Operator::Multiplication => 3,
    }
}

pub fn operator_precedence(op: &Operator) -> (r: u8)
    ensures
        r == precedence(*op),
{
    match op {
        Operator::LessThan => 1,
        Operator::Plus | Operator::Minus => 2,
        Operator::Multiplication => 3,
    }
}

#[derive(PartialEq, Eq, Debug, Clone)]
pub enum Token {
    OpeningParenthesis,
    ClosingParenthesis,
    OpeningCurlyBracket,
    ClosingCurlyBracket,
    SemiColon,
    Equals,
    Number(i32),
    Identifier(String),
    Operator(Operator),
    Var,
    While,
    Comma,
    Eof,
}

/// A token with its identifier, if any, as characters.
pub enum TokenView {
    OpeningParenthesis,
    ClosingParenthesis,
    OpeningCurlyBracket,
    ClosingCurlyBracket,
    SemiColon,
    Equals,
    Number(i32),
    Identifier(Seq<char>),
    Operator(Operator),
    Var,
    While,
    Comma,
    Eof,
}

impl View for Token {
    type V = TokenView;

    open spec fn view(&self) -> TokenView {
        match self {
            Token::OpeningParenthesis => TokenView::OpeningParenthesis,
            Token::ClosingParenthesis => TokenView::ClosingParenthesis,
            Token::OpeningCurlyBracket => TokenView::OpeningCurlyBracket,
            Token::ClosingCurlyBracket => TokenView::ClosingCurlyBracket,
            Token::SemiColon => TokenView::SemiColon,
            Token::Equals => TokenView::Equals,
            Token::Number(n) => TokenView::Number(*n),
            Token::Identifier(s) => TokenView::Identifier(s@),
            Token::Operator(op) => TokenView::Operator(*op),
            Token::Var => TokenView::Var,
            Token::While => TokenView::While,
            Token::Comma => TokenView::Comma,
            Token::Eof => TokenView::Eof,
        }
    }
}

impl Token {
    /// A copy of the token.
    pub fn duplicate(&self) -> (r: Token)
        ensures
            r@ == self@,
    {
        match self {
            Token::OpeningParenthesis => Token::OpeningParenthesis,
            Token::ClosingParenthesis => Token::ClosingParenthesis,
            Token::OpeningCurlyBracket => Token::OpeningCurlyBracket,
            Token::ClosingCurlyBracket => Token::ClosingCurlyBracket,
            Token::SemiColon => Token::SemiColon,
            Token::Equals => Token::Equals,
            Token::Number(n) => Token::Number(*n),
            Token::Identifier(s) => Token::Identifier(s.clone()),
            Token::Operator(op) => Token::Operator(*op),
            Token::Var => Token::Var,
            Token::While => Token::While,
            Token::Comma => Token::Comma,
            Token::Eof => Token::Eof,
        }
    }

    pub fn is_eof(&self) -> (r: bool)
        ensures
            r == (self@ is Eof),
    {
        match self {
            Token::Eof => true,
            _ => false,
        }
    }
}

#[derive(PartialEq, Eq, Debug, Clone)]
pub struct TokenNode {
    pub token: Token,
    pub span: Span,
}

impl TokenNode {
    pub fn new(token: Token, start: usize, end: usize) -> (r: TokenNode)
        ensures
            r.token == token,
            r.span == (Span { start, end }),
    {
        TokenNode { token, span: Span { start, end } }
    }

    /// A copy of the token node.
    pub fn duplicate(&self) -> (r: TokenNode)
        ensures
            r@ == self@,
    {
        TokenNode { token: self.token.duplicate(), span: self.span }
    }
}

impl View for TokenNode {
    type V = (TokenView, Span);

    open spec fn view(&self) -> (TokenView, Span) {
        (self.token@, self.span)
    }
}

pub type TokenResult = Result<TokenNode, TokenizerError>;

/// What a token result says: the token and its span, or the error.
pub type ReadView = Result<(TokenView, Span), ErrorView>;

pub open spec fn result_view(r: TokenResult) -> ReadView {
    match r {
        Ok(t) => Ok(t@),
        Err(e) => Err(e@),
    }
}

fn duplicate_result(r: &TokenResult) -> (c: TokenResult)
    ensures
        result_view(c) == result_view(*r),
{
    match r {
        Ok(t) => Ok(t.duplicate()),
        Err(e) => Err(SpanError { message: e.message.clone(), span: e.span }),
    }
}

/// A run of whitespace, skipped before each token.
pub const WHITESPACE_PATTERN: &'static str = "^(\\s+)";

/// An identifier: a letter, then letters, digits and underscores.
pub const IDENTIFIER_PATTERN: &'static str = "^([a-zA-Z][a-zA-Z0-9_]*)";

/// A decimal integer literal.
pub const NUMBER_PATTERN: &'static str = "^(\\d+)";

/// The leftmost match of a regular expression in a text, as the byte offsets
/// of its start and end in the text; `None` where there is no match or the
/// pattern does not compile.
pub uninterp spec fn regex_find(pattern: Seq<char>, text: Seq<char>) -> Option<(usize, usize)>;

/// Relies on `regex::Regex::new`, which compiles the pattern, and
/// `regex::Regex::find`, which returns the leftmost match as byte offsets that
/// lie on character boundaries of the haystack, start before end.
#[verifier::external_body]
fn find_match(pattern: &str, text: &str) -> (r: Option<(usize, usize)>)
    ensures
        r == regex_find(pattern@, text@),
        r matches Some((s, e)) ==> s <= e <= text.spec_bytes().len() && is_char_boundary(
            text.spec_bytes(),
            e as int,
        ),
{
    match regex::Regex::new(pattern) {
        Ok(re) => match re.find(text) {
            Some(m) => Some((m.start(), m.end())),
            None => None,
        },
        Err(_) => None,
    }
}

/// The length of a non-empty match of `pattern` at the very start of `text`.
pub open spec fn prefix_match(pattern: Seq<char>, text: Seq<char>) -> Option<int> {
    match regex_find(pattern, text) {
        Some((s, e)) => if s == 0 && e > 0 { Some(e as int) } else { None },
        None => None,
    }
}

/// The token of a one-character rule.
pub open spec fn char_token(b: u8) -> Option<TokenView> {
    if b == 40 { Some(TokenView::OpeningParenthesis) }
    else if b == 41 { Some(TokenView::ClosingParenthesis) }
    else if b == 123 { Some(TokenView::OpeningCurlyBracket) }
    else if b == 125 { Some(TokenView::ClosingCurlyBracket) }
    else if b == 59 { Some(TokenView::SemiColon) }
    else if b == 61 { Some(TokenView::Equals) }
    else if b == 43 { Some(TokenView::Operator(Operator::Plus)) }
    else if b == 45 { Some(TokenView::Operator(Operator::Minus)) }
    else if b == 42 { Some(TokenView::Operator(Operator::Multiplication)) }
    else if b == 60 { Some(TokenView::Operator(Operator::LessThan)) }
    else if b == 44 { Some(TokenView::Comma) }
    else { None }
}

fn char_rule(b: u8) -> (r: Option<Token>)
    ensures
        r matches Some(t) ==> char_token(b) == Some(t@),
        r is None <==> char_token(b) is None,
{
    if b == 40 { Some(Token::OpeningParenthesis) }
    else if b == 41 { Some(Token::ClosingParenthesis) }
    else if b == 123 { Some(Token::OpeningCurlyBracket) }
    else if b == 125 { Some(Token::ClosingCurlyBracket) }
    else if b == 59 { Some(Token::SemiColon) }
    else if b == 61 { Some(Token::Equals) }
    else if b == 43 { Some(Token::Operator(Operator::Plus)) }
    else if b == 45 { Some(Token::Operator(Operator::Minus)) }
    else if b == 42 { Some(Token::Operator(Operator::Multiplication)) }
    else if b == 60 { Some(Token::Operator(Operator::LessThan)) }
    else if b == 44 { Some(Token::Comma) }
    else { None }
}

pub open spec fn var_bytes() -> Seq<u8> {
    seq![118u8, 97u8, 114u8]
}

pub open spec fn while_bytes() -> Seq<u8> {
    seq![119u8, 104u8, 105u8, 108u8, 101u8]
}

/// Whether `b` starts with `word` at offset `at`.
pub open spec fn has_word_at(b: Seq<u8>, at: int, word: Seq<u8>) -> bool {
    at + word.len() <= b.len() && b.subrange(at, at + word.len()) == word
}

fn word_at(b: &[u8], at: usize, word: &[u8]) -> (r: bool)
    ensures
        r == has_word_at(b@, at as int, word@),
{
    if at > b.len() || word.len() > b.len() - at {
        return false;
    }
    let n = b.len();
    let mut i: usize = 0;
    while i < word.len()
        invariant
            n == b@.len(),
            at + word@.len() <= n,
            i <= word@.len(),
            forall|j: int| 0 <= j < i ==> b@[at + j] == word@[j],
        decreases word.len() - i,
    {
        if b[at + i] != word[i] {
            proof {
                assert(b@.subrange(at as int, at + word@.len())[i as int] != word@[i as int]);
            }
            return false;
        }
        i = i + 1;
    }
    proof {
        assert(b@.subrange(at as int, at + word@.len()) =~= word@);
    }
    true
}

/// The text that follows byte offset `start`.
pub open spec fn text_from(b: Seq<u8>, start: int) -> Seq<char> {
    decode_utf8(b.subrange(start, b.len() as int))
}

/// The token that the rules give at byte offset `start`, after any whitespace
/// there: the first rule that matches wins.
pub open spec fn read_at(b: Seq<u8>, start: int, terminated: bool) -> ReadView
    decreases b.len() - start,
{
    if start >= b.len() {
        if terminated {
            Err(error_at("Cannot read after EOF"@, start, start))
        } else {
            let end = if start < usize::MAX { start + 1 } else { start };
            Ok((TokenView::Eof, Span { start: start as usize, end: end as usize }))
        }
    } else if start < 0 || !is_char_boundary(b, start) {
        Err(error_at("Unexpected token!"@, start, b.len() as int))
    } else {
        let rest = text_from(b, start);
        match prefix_match(WHITESPACE_PATTERN@, rest) {
            Some(n) => if start + n <= b.len() {
                read_at(b, start + n, terminated)
            } else {
                Err(error_at("Unexpected token!"@, start, b.len() as int))
            },
            None => rule_at(b, start, rest),
        }
    }
}

/// The length of a match that starts at offset `start` and ends inside the
/// text on a character boundary, where the match is not empty.
pub open spec fn match_len(m: Option<(usize, usize)>, b: Seq<u8>, start: int) -> Option<int> {
    match m {
        Some((s, e)) => if s == 0 && e > 0 && start + e <= b.len() && is_char_boundary(
            b,
            start + e,
        ) {
            Some(e as int)
        } else {
            None
        },
        None => None,
    }
}

/// The first rule after whitespace that matches at `start`, given where the
/// identifier and number patterns match the text from there: one-character
/// tokens, then an identifier that is no keyword, then `var` and `while`, then
/// a number.
pub open spec fn rules_with(
    b: Seq<u8>,
    start: int,
    identifier: Option<(usize, usize)>,
    number: Option<(usize, usize)>,
) -> ReadView {
    let span = |n: int| Span { start: start as usize, end: (start + n) as usize };
    if char_token(b[start]) is Some {
        Ok((char_token(b[start])->0, span(1)))
    } else if match_len(identifier, b, start) is Some && !is_keyword(
        b.subrange(start, start + match_len(identifier, b, start)->0),
    ) {
        let n = match_len(identifier, b, start)->0;
        Ok((TokenView::Identifier(decode_utf8(b.subrange(start, start + n))), span(n)))
    } else if has_word_at(b, start, var_bytes()) {
        Ok((TokenView::Var, span(3)))
    } else if has_word_at(b, start, while_bytes()) {
        Ok((TokenView::While, span(5)))
    } else if match_len(number, b, start) is Some {
        let n = match_len(number, b, start)->0;
        let d = b.subrange(start, start + n);
        if forall|i: int| 0 <= i < d.len() ==> is_digit(#[trigger] d[i]) {
            match bounded_digits(d, 0x7fff_ffff) {
                Some(v) => Ok((TokenView::Number(v as i32), span(n))),
                None => Err(error_at("Number literal out of range"@, start, start + n)),
            }
        } else {
            Err(error_at("Invalid number literal"@, start, start + n))
        }
    } else {
        Err(error_at("Unexpected token!"@, start, b.len() as int))
    }
}

/// The first of the rules after whitespace that matches at `start`.
pub open spec fn rule_at(b: Seq<u8>, start: int, rest: Seq<char>) -> ReadView {
    rules_with(b, start, regex_find(IDENTIFIER_PATTERN@, rest), regex_find(NUMBER_PATTERN@, rest))
}

/// Whether a word is one of the keywords, which the identifier rule leaves alone.
pub open spec fn is_keyword(w: Seq<u8>) -> bool {
    w == var_bytes() || w == while_bytes()
}

fn keyword_word(b: &[u8], start: usize, n: usize) -> (r: bool)
    requires
        start + n <= b@.len(),
    ensures
        r == is_keyword(b@.subrange(start as int, start + n)),
{
    let var_word: Vec<u8> = vec![118u8, 97u8, 114u8];
    let while_word: Vec<u8> = vec![119u8, 104u8, 105u8, 108u8, 101u8];
    proof {
        assert(var_word@ =~= var_bytes());
        assert(while_word@ =~= while_bytes());
    }
    (n == 3 && word_at(b, start, var_word.as_slice())) || (n == 5 && word_at(
        b,
        start,
        while_word.as_slice(),
    ))
}

fn all_digits(d: &[u8]) -> (r: bool)
    ensures
        r == forall|i: int| 0 <= i < d@.len() ==> is_digit(#[trigger] d@[i]),
{
    let mut i: usize = 0;
    while i < d.len()
        invariant
            i <= d@.len(),
            forall|j: int| 0 <= j < i ==> is_digit(#[trigger] d@[j]),
        decreases d.len() - i,
    {
        if d[i] < 48u8 || d[i] > 57u8 {
            return false;
        }
        i = i + 1;
    }
    true
}

/// The token that the rules give at offset `start` of `text`, where no
/// whitespace is, given the leftmost matches of the identifier and number
/// patterns in the text from `start` on (as `regex::Regex::find` gives them).
pub fn token_from_matches(
    text: &str,
    start: usize,
    identifier: Option<(usize, usize)>,
    number: Option<(usize, usize)>,
) -> (r: TokenResult)
    requires
        start < text.spec_bytes().len(),
        is_char_boundary(text.spec_bytes(), start as int),
    ensures
        result_view(r) == rules_with(text.spec_bytes(), start as int, identifier, number),
{
    let bytes = text.as_bytes();
    let len = bytes.len();
    proof {
        encode_utf8_valid_utf8(text@);
    }
    if let Some(t) = char_rule(bytes[start]) {
        return Ok(TokenNode::new(t, start, start + 1));
    }
    if let Some((s, e)) = identifier {
        if s == 0 && e > 0 && e <= len - start && text.is_char_boundary(start + e) && !keyword_word(
            bytes,
            start,
            e,
        ) {
            let (_, rest) = text.split_at(start);
            proof {
                lemma_boundary_in_suffix(text.spec_bytes(), start as int, start + e);
            }
            let (word, _) = rest.split_at(e);
            proof {
                assert(word.spec_bytes() =~= bytes@.subrange(start as int, start + e));
                encode_utf8_decode_utf8(word@);
            }
            return Ok(TokenNode::new(Token::Identifier(word.to_owned()), start, start + e));
        }
    }
    let var_word: Vec<u8> = vec![118u8, 97u8, 114u8];
    let while_word: Vec<u8> = vec![119u8, 104u8, 105u8, 108u8, 101u8];
    proof {
        assert(var_word@ =~= var_bytes());
        assert(while_word@ =~= while_bytes());
    }
    if word_at(bytes, start, var_word.as_slice()) {
        return Ok(TokenNode::new(Token::Var, start, start + 3));
    }
    if word_at(bytes, start, while_word.as_slice()) {
        return Ok(TokenNode::new(Token::While, start, start + 5));
    }
    if let Some((s, e)) = number {
        if s == 0 && e > 0 && e <= len - start && text.is_char_boundary(start + e) {
            let digits = vstd::slice::slice_subrange(bytes, start, start + e);
            if !all_digits(digits) {
                return Err(
                    SpanError::new(String::from_str("Invalid number literal"), start, start + e),
                );
            }
            return match digits_up_to(digits, 0x7fff_ffff) {
                Some(v) => Ok(TokenNode::new(Token::Number(v as i32), start, start + e)),
                None => Err(
                    SpanError::new(
                        String::from_str("Number literal out of range"),
                        start,
                        start + e,
                    ),
                ),
            };
        }
    }
    Err(SpanError::new(String::from_str("Unexpected token!"), start, len))
}

/// A tokenizer over source text that produces one located token at a time,
/// with one token of lookahead.
pub struct SimpleTokenizer<'a> {
    data: &'a str,
    cursor: usize,
    next: Option<TokenResult>,
    terminated: bool,
}

/// The state of a tokenizer: the bytes of its text, where it reads next, the
/// token it holds after a peek, and whether it is done.
pub struct LexerView {
    pub text: Seq<u8>,
    pub cursor: int,
    pub pending: Option<ReadView>,
    pub terminated: bool,
}

impl<'a> View for SimpleTokenizer<'a> {
    type V = LexerView;

    closed spec fn view(&self) -> LexerView {
        LexerView {
            text: self.data.spec_bytes(),
            cursor: self.cursor as int,
            pending: match self.next {
                Some(r) => Some(result_view(r)),
                None => None,
            },
            terminated: self.terminated,
        }
    }
}

/// Where the tokenizer stands after reading a result at the cursor, and
/// whether it is then terminated.
pub open spec fn after_read(text: Seq<u8>, r: ReadView) -> (int, bool) {
    match r {
        Ok((t, span)) => (span.end as int, t is Eof && span.start == text.len()),
        Err(e) => (e.span.end as int, false),
    }
}

/// The result of reading at the cursor and the state that follows.
pub open spec fn advance_spec(v: LexerView) -> (ReadView, LexerView) {
    let r = read_at(v.text, v.cursor, v.terminated);
    let (cursor, done) = after_read(v.text, r);
    (r, LexerView { cursor, terminated: v.terminated || done, ..v })
}

/// What `next` returns and leaves: the held token, if any, else a fresh read.
pub open spec fn next_spec(v: LexerView) -> (ReadView, LexerView) {
    match v.pending {
        Some(r) => (r, LexerView { pending: None, ..v }),
        None => advance_spec(v),
    }
}

/// What `peek` returns and leaves: the held token, if any, else a fresh read
/// that is then held.
pub open spec fn peek_spec(v: LexerView) -> (ReadView, LexerView) {
    match v.pending {
        Some(r) => (r, v),
        None => {
            let (r, w) = advance_spec(v);
            (r, LexerView { pending: Some(r), ..w })
        },
    }
}

impl<'a> SimpleTokenizer<'a> {
    pub fn new(data: &'a str) -> (r: SimpleTokenizer<'a>)
        ensures
            r@ == (LexerView { text: data.spec_bytes(), cursor: 0, pending: None, terminated: false }),
            r.wf(),
    {
        let _ = data.as_bytes().len();
        SimpleTokenizer { data, cursor: 0, next: None, terminated: false }
    }

    fn rule(&self, start: usize, rest: &str) -> (r: TokenResult)
        requires
            start < self.data.spec_bytes().len(),
            is_char_boundary(self.data.spec_bytes(), start as int),
            rest@ == text_from(self.data.spec_bytes(), start as int),
        ensures
            result_view(r) == rule_at(self.data.spec_bytes(), start as int, rest@),
    {
        let identifier = find_match(IDENTIFIER_PATTERN, rest);
        let number = find_match(NUMBER_PATTERN, rest);
        token_from_matches(self.data, start, identifier, number)
    }

    fn read(&self, start_index: usize) -> (r: TokenResult)
        ensures
            result_view(r) == read_at(self.data.spec_bytes(), start_index as int, self.terminated),
    {
        let bytes = self.data.as_bytes();
        let len = bytes.len();
        let mut start = start_index;
        loop
            invariant
                bytes@ == self.data.spec_bytes(),
                len == bytes@.len(),
                read_at(bytes@, start as int, self.terminated) == read_at(
                    bytes@,
                    start_index as int,
                    self.terminated,
                ),
            decreases len - start,
        {
            if start >= len {
                if self.terminated {
                    return Err(SpanError::new(String::from_str("Cannot read after EOF"), start, start));
                } else {
                    let end = if start < usize::MAX { start + 1 } else { start };
                    return Ok(TokenNode::new(Token::Eof, start, end));
                }
            }
            if !self.data.is_char_boundary(start) {
                return Err(SpanError::new(String::from_str("Unexpected token!"), start, len));
            }
            let (_, rest) = self.data.split_at(start);
            proof {
                encode_utf8_decode_utf8(rest@);
            }
            match find_match(WHITESPACE_PATTERN, rest) {
                Some((s, e)) => {
                    if s == 0 && e > 0 {
                        start = start + e;
                        continue;
                    }
                },
                None => {},
            }
            return self.rule(start, rest);
        }
    }
}

/// Where the next token starts at the earliest: at the held token, if any,
/// else at the cursor.
pub open spec fn lexer_position(v: LexerView) -> int {
    match v.pending {
        Some(Ok((_, sp))) => sp.start as int,
        _ => v.cursor,
    }
}

/// A held result lies just before the cursor.
pub open spec fn lexer_consistent(v: LexerView) -> bool {
    lexer_ok(v) && match v.pending {
        Some(Ok((t, sp))) => sp.start <= sp.end && v.cursor == sp.end && (!(t is Eof) ==> sp.end
            <= v.text.len()) && (t is Eof && sp.start == v.text.len() ==> v.terminated),
        Some(Err(e)) => v.cursor == e.span.end,
        None => true,
    }
}

/// After a peek, `next` gives what it would have given without it.
proof fn lemma_peek_then_next(v: LexerView)
    ensures
        next_spec(peek_spec(v).1) == next_spec(v),
        peek_spec(v).0 == next_spec(v).0,
{
}

proof fn lemma_positions(v: LexerView)
    requires
        lexer_consistent(v),
    ensures
        lexer_consistent(next_spec(v).1),
        lexer_position(next_spec(v).1) >= lexer_position(v),
        match next_spec(v).0 {
            Ok((_, sp)) => lexer_position(v) <= sp.start <= sp.end <= lexer_position(next_spec(v).1),
            Err(_) => true,
        },
        lexer_consistent(peek_spec(v).1),
        lexer_position(peek_spec(v).1) >= lexer_position(v),
        match peek_spec(v).0 {
            Ok((_, sp)) => lexer_position(peek_spec(v).1) == sp.start,
            Err(_) => true,
        },
{
    lemma_read_progress(v.text, v.cursor, v.terminated);
    lemma_next_measure(v);
}

/// A measure of the tokens still to come that a peek leaves as it is: twice
/// the distance from the end after the next token, plus one where that token
/// is not the end of input.
pub open spec fn stream_measure(v: LexerView) -> nat {
    let (r, w) = next_spec(v);
    2 * distance(v.text.len() as int, w.cursor) + match r {
        Ok((t, _)) => if t is Eof { 0nat } else { 1nat },
        Err(_) => 0nat,
    }
}

proof fn lemma_stream_measure(v: LexerView)
    requires
        lexer_consistent(v),
    ensures
        stream_measure(next_spec(v).1) <= stream_measure(v),
        match next_spec(v).0 {
            Ok((t, _)) => !(t is Eof) ==> stream_measure(next_spec(v).1) < stream_measure(v),
            Err(_) => true,
        },
        stream_measure(peek_spec(v).1) == stream_measure(v),
{
    lemma_read_progress(v.text, v.cursor, v.terminated);
    lemma_positions(v);
    let w = next_spec(v).1;
    lemma_read_progress(w.text, w.cursor, w.terminated);
}

/// How far an offset is from one past the end of the text.
pub open spec fn distance(len: int, c: int) -> nat {
    if c <= len { (len + 1 - c) as nat } else { 0 }
}

/// A measure of what a tokenizer has left to produce before its end of input.
pub open spec fn lexer_measure(v: LexerView) -> nat {
    2 * distance(v.text.len() as int, v.cursor) + match v.pending {
        Some(Ok((t, _))) => if t is Eof { 0nat } else { 1nat },
        _ => 0nat,
    }
}

/// A read never moves back, and a token other than end of input lies inside
/// the text, after the offset read from.
pub proof fn lemma_read_progress(b: Seq<u8>, c: int, terminated: bool)
    requires
        0 <= c <= usize::MAX,
        b.len() <= usize::MAX,
    ensures
        after_read(b, read_at(b, c, terminated)).0 >= c,
        match read_at(b, c, terminated) {
            Ok((t, sp)) => c <= sp.start <= sp.end && (!(t is Eof) ==> c <= sp.start < sp.end
                <= b.len()),
            Err(e) => c <= e.span.end,
        },
    decreases b.len() - c,
{
    if c < b.len() && is_char_boundary(b, c) {
        let rest = text_from(b, c);
        match prefix_match(WHITESPACE_PATTERN@, rest) {
            Some(n) => if c + n <= b.len() {
                lemma_read_progress(b, c + n, terminated);
            },
            None => {
                let r = rule_at(b, c, rest);
                assert(read_at(b, c, terminated) == r);
            },
        }
    }
}

/// The states on which a tokenizer's measure is taken: offsets that fit a `usize`.
pub open spec fn lexer_ok(v: LexerView) -> bool {
    0 <= v.cursor <= usize::MAX && v.text.len() <= usize::MAX
}

proof fn lemma_next_measure(v: LexerView)
    requires
        lexer_ok(v),
    ensures
        lexer_measure(next_spec(v).1) <= lexer_measure(v),
        match next_spec(v).0 {
            Ok((t, _)) => !(t is Eof) ==> lexer_measure(next_spec(v).1) < lexer_measure(v),
            Err(_) => true,
        },
        lexer_ok(next_spec(v).1),
        lexer_measure(peek_spec(v).1) <= lexer_measure(v),
        lexer_ok(peek_spec(v).1),
{
    lemma_read_progress(v.text, v.cursor, v.terminated);
}

#[via_fn]
proof fn drain_decreases(v: LexerView) {
    if lexer_ok(v) {
        lemma_next_measure(v);
    }
}

/// Every token from the state `v` on, through the first end of input, or the
/// first error.
pub open spec fn drain(v: LexerView) -> Result<Seq<TokenView>, ErrorView>
    decreases lexer_measure(v),
    when lexer_ok(v)
    via drain_decreases
{
    let (r, w) = next_spec(v);
    match r {
        Err(e) => Err(e),
        Ok((t, _)) => if t is Eof {
            Ok(seq![t])
        } else {
            match drain(w) {
                Ok(rest) => Ok(seq![t] + rest),
                Err(e) => Err(e),
            }
        },
    }
}

/// Whether a token sequence ends with one end of input, and holds no other.
pub open spec fn ends_with_single_eof(s: Seq<TokenView>) -> bool {
    s.len() > 0 && s.last() is Eof && forall|i: int| 0 <= i < s.len() - 1 ==> !(#[trigger] s[i] is Eof)
}

/// A source of tokens with one token of lookahead, as the parser reads them.
pub trait Tokenizer: Sized {
    /// A measure of the input left: a token other than end of input uses some up.
    spec fn remaining(&self) -> nat;

    /// Whether the tokenizer's state is consistent.
    spec fn wf(&self) -> bool;

    /// The offset at or after which the next token starts.
    spec fn position(&self) -> int;

    /// What `next` returns from this state.
    spec fn front(&self) -> ReadView;

    /// The state that `next` leaves.
    spec fn rest(&self) -> Self;

    /// Consuming a token keeps the state consistent and adds nothing to what
    /// is left; a token other than end of input uses some up.
    proof fn lemma_rest(&self)
        requires
            self.wf(),
        ensures
            self.rest().wf(),
            self.rest().remaining() <= self.remaining(),
            match self.front() {
                Ok((t, _)) => !(t is Eof) ==> self.rest().remaining() < self.remaining(),
                Err(_) => true,
            },
    ;

    /// The next token, consumed; it lies between the positions before and after.
    fn next(&mut self) -> (r: TokenResult)
        requires
            old(self).wf(),
        ensures
            result_view(r) == old(self).front(),
            *final(self) == old(self).rest(),
            final(self).wf(),
            final(self).position() >= old(self).position(),
            r matches Ok(t) ==> old(self).position() <= t.span.start && t.span.start <= t.span.end
                && t.span.end <= final(self).position(),
            final(self).remaining() <= old(self).remaining(),
            match r {
                Ok(t) => !(t.token@ is Eof) ==> final(self).remaining() < old(self).remaining(),
                Err(_) => true,
            },
    ;

    /// The next token, not consumed: until `next`, it is returned again.
    fn peek(&mut self) -> (r: TokenResult)
        requires
            old(self).wf(),
        ensures
            result_view(r) == old(self).front(),
            final(self).front() == old(self).front(),
            final(self).rest() == old(self).rest(),
            final(self).wf(),
            final(self).position() >= old(self).position(),
            r matches Ok(t) ==> final(self).position() == t.span.start,
            final(self).remaining() == old(self).remaining(),
    ;

    /// An empty span at the start of the next token.
    fn get_empty_span(&mut self) -> (r: Result<Span, TokenizerError>)
        requires
            old(self).wf(),
        ensures
            final(self).front() == old(self).front(),
            final(self).rest() == old(self).rest(),
            final(self).remaining() == old(self).remaining(),
            match old(self).front() {
                Ok((_, sp)) => r == Ok::<Span, TokenizerError>(Span { start: sp.start, end: sp.start }),
                Err(e) => r matches Err(x) && x@ == e,
            },
            final(self).wf(),
            final(self).position() >= old(self).position(),
            r matches Ok(s) ==> s.start == s.end && s.start == final(self).position(),
            final(self).remaining() <= old(self).remaining(),
    ;

    /// Every remaining token through the first end of input.
    fn collect_tokens(&mut self) -> (r: Result<Vec<Token>, TokenizerError>)
        requires
            old(self).wf(),
        ensures
            r matches Ok(v) ==> ends_with_single_eof(v@.map_values(|t: Token| t@)),
    ;
}

impl<'a> SimpleTokenizer<'a> {
    /// The text being tokenized.
    pub closed spec fn source(&self) -> &'a str {
        self.data
    }

    fn advance(&mut self) -> (r: TokenResult)
        ensures
            final(self).source() == old(self).source(),
            (result_view(r), final(self)@) == advance_spec(old(self)@),
    {
        let len = self.data.as_bytes().len();
        let result = self.read(self.cursor);
        self.cursor = match &result {
            Ok(t) => t.span.end,
            Err(e) => e.span.end,
        };
        if let Ok(t) = &result {
            if t.token.is_eof() && t.span.start == len {
                self.terminated = true;
            }
        }
        result
    }

    /// The next token, consumed.
    pub fn next(&mut self) -> (r: TokenResult)
        ensures
            final(self).source() == old(self).source(),
            (result_view(r), final(self)@) == next_spec(old(self)@),
    {
        match self.next.take() {
            Some(r) => r,
            None => self.advance(),
        }
    }

    /// The next token, held so that the following `next` or `peek` returns it.
    pub fn peek(&mut self) -> (r: TokenResult)
        ensures
            final(self).source() == old(self).source(),
            (result_view(r), final(self)@) == peek_spec(old(self)@),
    {
        if let Some(r) = &self.next {
            return duplicate_result(r);
        }
        let result = self.advance();
        self.next = Some(duplicate_result(&result));
        result
    }

    /// An empty span where the next token starts.
    pub fn get_empty_span(&mut self) -> (r: Result<Span, TokenizerError>)
        ensures
            final(self).source() == old(self).source(),
            final(self)@ == peek_spec(old(self)@).1,
            r matches Ok(s) ==> peek_spec(old(self)@).0 matches Ok((_, sp)) && s == (Span {
                start: sp.start,
                end: sp.start,
            }),
            r matches Err(e) ==> peek_spec(old(self)@).0 == Err::<(TokenView, Span), _>(e@),
    {
        let start = self.peek()?.span.start;
        Ok(Span { start, end: start })
    }

    /// Every remaining token through the first end of input.
    pub fn collect_tokens(&mut self) -> (r: Result<Vec<Token>, TokenizerError>)
        ensures
            r matches Ok(v) ==> drain(old(self)@) == Ok::<_, ErrorView>(v@.map_values(|t: Token| t@))
                && ends_with_single_eof(v@.map_values(|t: Token| t@)),
            r matches Err(e) ==> drain(old(self)@) == Err::<Seq<TokenView>, _>(e@),
    {
        let mut result: Vec<Token> = Vec::new();
        let bytes = self.data.as_bytes();
        let n = bytes.len();
        let ghost start = self@;
        loop
            invariant
                start == old(self)@,
                lexer_ok(start),
                lexer_ok(self@),
                drain(start) == match drain(self@) {
                    Ok(rest) => Ok(result@.map_values(|t: Token| t@) + rest),
                    Err(e) => Err(e),
                },
                forall|i: int| 0 <= i < result@.len() ==> !(#[trigger] result@[i]@ is Eof),
            decreases lexer_measure(self@),
        {
            proof {
                lemma_next_measure(self@);
            }
            let ghost before = self@;
            let next = match self.next() {
                Ok(t) => t,
                Err(e) => {
                    assert(drain(before) == Err::<Seq<TokenView>, _>(e@));
                    return Err(e);
                },
            };
            let eof = next.token.is_eof();
            proof {
                if !eof {
                    assert(drain(before) == match drain(self@) {
                        Ok(rest) => Ok(seq![next.token@] + rest),
                        Err(e) => Err(e),
                    });
                    match drain(self@) {
                        Ok(rest) => {
                            assert(result@.map_values(|t: Token| t@) + (seq![next.token@] + rest)
                                =~= result@.map_values(|t: Token| t@) + seq![next.token@] + rest);
                        },
                        Err(_) => {},
                    }
                }
            }
            proof {
                assert(result@.push(next.token).map_values(|t: Token| t@) =~= result@.map_values(
                    |t: Token| t@,
                ) + seq![next.token@]);
            }
            result.push(next.token);
            if eof {
                proof {
                    let s = result@.map_values(|t: Token| t@);
                    assert(drain(start) == Ok::<_, ErrorView>(s)) by {
                        assert(s =~= (s.drop_last() + seq![s.last()]));
                    }
                }
                return Ok(result);
            }
        }
    }
}

impl<'a> Tokenizer for SimpleTokenizer<'a> {
    closed spec fn remaining(&self) -> nat {
        stream_measure(self@)
    }

    closed spec fn wf(&self) -> bool {
        lexer_consistent(self@)
    }

    closed spec fn position(&self) -> int {
        lexer_position(self@)
    }

    closed spec fn front(&self) -> ReadView {
        next_spec(self@).0
    }

    closed spec fn rest(&self) -> Self {
        let w = next_spec(self@).1;
        SimpleTokenizer { data: self.data, cursor: w.cursor as usize, next: None, terminated: w.terminated }
    }

    proof fn lemma_rest(&self) {
        lemma_stream_measure(self@);
        lemma_next_measure(self@);
        lemma_positions(self@);
    }

    fn next(&mut self) -> (r: TokenResult) {
        proof {
            lemma_stream_measure(self@);
            lemma_next_measure(self@);
            lemma_positions(self@);
        }
        SimpleTokenizer::next(self)
    }

    fn peek(&mut self) -> (r: TokenResult) {
        proof {
            lemma_stream_measure(self@);
            lemma_next_measure(self@);
            lemma_positions(self@);
            lemma_peek_then_next(self@);
        }
        SimpleTokenizer::peek(self)
    }

    fn get_empty_span(&mut self) -> (r: Result<Span, TokenizerError>) {
        proof {
            lemma_stream_measure(self@);
            lemma_next_measure(self@);
            lemma_positions(self@);
            lemma_peek_then_next(self@);
        }
        SimpleTokenizer::get_empty_span(self)
    }

    fn collect_tokens(&mut self) -> (r: Result<Vec<Token>, TokenizerError>) {
        SimpleTokenizer::collect_tokens(self)
    }
}

/// The state of a tokenizer that has just been made for `text`.
pub open spec fn fresh(text: Seq<u8>) -> LexerView {
    LexerView { text, cursor: 0, pending: None, terminated: false }
}

proof fn lemma_drain_ends_with_eof(v: LexerView)
    requires
        lexer_ok(v),
    ensures
        drain(v) matches Ok(s) ==> ends_with_single_eof(s),
    decreases lexer_measure(v),
{
    lemma_next_measure(v);
    let (r, w) = next_spec(v);
    if let Ok((t, _)) = r {
        if !(t is Eof) {
            lemma_drain_ends_with_eof(w);
            if let Ok(rest) = drain(w) {
                let s = seq![t] + rest;
                assert forall|i: int| 0 <= i < s.len() - 1 implies !(#[trigger] s[i] is Eof) by {
                    if i > 0 {
                        assert(s[i] == rest[i - 1]);
                    }
                }
                assert(s.last() == rest.last());
            }
        }
    }
}

/// Tokenizing a text yields, unless it fails, a sequence that ends with
/// exactly one end-of-input token; and the tokens are a function of the text
/// alone, so two fresh tokenizers on equal texts yield the same.
pub proof fn law_tokens_end_with_single_eof(a: &str, b: &str)
    requires
        a@ == b@,
        a.spec_bytes().len() <= usize::MAX,
    ensures
        drain(fresh(a.spec_bytes())) matches Ok(s) ==> ends_with_single_eof(s),
        drain(fresh(a.spec_bytes())) == drain(fresh(b.spec_bytes())),
{
    lemma_drain_ends_with_eof(fresh(a.spec_bytes()));
}

/// Peeking twice with no `next` between returns the same result both times,
/// and the second peek changes nothing.
pub proof fn law_peek_idempotent(v: LexerView)
    ensures
        peek_spec(peek_spec(v).1) == (peek_spec(v).0, peek_spec(v).1),
{
}

/// Once the end-of-input token has been read at the end of the text, every
/// later read fails with "Cannot read after EOF".
pub proof fn law_no_read_after_eof(v: LexerView)
    requires
        lexer_consistent(v),
        next_spec(v).0 matches Ok((t, sp)) && t is Eof && sp.start == v.text.len(),
    ensures
        next_spec(next_spec(v).1).0 matches Err(e) && e.message == "Cannot read after EOF"@,
        next_spec(next_spec(next_spec(v).1).1).0 matches Err(e) && e.message
            == "Cannot read after EOF"@,
{
    lemma_read_progress(v.text, v.cursor, v.terminated);
    let w = next_spec(v).1;
    lemma_read_progress(w.text, w.cursor, w.terminated);
}

/// A tokenizer over a list of tokens given in advance, each with an empty span
/// at offset zero.
pub struct TokenQueue {
    tokens: Vec<Token>,
    index: usize,
}

impl TokenQueue {
    pub fn new(tokens: Vec<Token>) -> (r: TokenQueue)
        ensures
            r.left() == tokens@.map_values(|t: Token| t@),
            r.wf(),
    {
        proof {
            assert(tokens@.subrange(0, tokens@.len() as int) =~= tokens@);
        }
        let _ = tokens.len();
        TokenQueue { tokens, index: 0 }
    }

    /// The tokens not yet consumed.
    pub closed spec fn left(&self) -> Seq<TokenView> {
        self.tokens@.subrange(self.index as int, self.tokens@.len() as int).map_values(|t: Token| t@)
    }

    /// A token list hands out its tokens in order, each with the empty span at
    /// offset zero, and then fails with "Empty".
    pub proof fn lemma_queue_stream(&self)
        requires
            self.wf(),
        ensures
            self.remaining() == self.left().len(),
            self.rest().wf(),
            self.left().len() > 0 ==> self.front() == Ok::<(TokenView, Span), ErrorView>(
                (self.left()[0], Span { start: 0, end: 0 }),
            ) && self.rest().left() == self.left().drop_first(),
            self.left().len() == 0 ==> self.front() == Err::<(TokenView, Span), ErrorView>(
                error_at("Empty"@, 0, 0),
            ) && self.rest() == *self,
    {
        if self.index < self.tokens@.len() {
            assert(self.rest().left() =~= self.left().drop_first());
        }
    }
}

impl Tokenizer for TokenQueue {
    closed spec fn remaining(&self) -> nat {
        if self.index <= self.tokens@.len() {
            (self.tokens@.len() - self.index) as nat
        } else {
            0
        }
    }

    closed spec fn wf(&self) -> bool {
        self.index <= self.tokens@.len() <= usize::MAX
    }

    closed spec fn position(&self) -> int {
        0
    }

    closed spec fn front(&self) -> ReadView {
        if self.index < self.tokens@.len() {
            Ok((self.tokens@[self.index as int]@, Span { start: 0, end: 0 }))
        } else {
            Err(error_at("Empty"@, 0, 0))
        }
    }

    closed spec fn rest(&self) -> Self {
        if self.index < self.tokens@.len() {
            TokenQueue { tokens: self.tokens, index: (self.index + 1) as usize }
        } else {
            *self
        }
    }

    proof fn lemma_rest(&self) {
    }

    fn next(&mut self) -> (r: TokenResult) {
        if self.index < self.tokens.len() {
            let token = self.tokens[self.index].duplicate();
            self.index = self.index + 1;
            Ok(TokenNode::new(token, 0, 0))
        } else {
            Err(SpanError::new(String::from_str("Empty"), 0, 0))
        }
    }

    fn peek(&mut self) -> (r: TokenResult) {
        if self.index < self.tokens.len() {
            Ok(TokenNode::new(self.tokens[self.index].duplicate(), 0, 0))
        } else {
            Err(SpanError::new(String::from_str("Empty"), 0, 0))
        }
    }

    fn get_empty_span(&mut self) -> (r: Result<Span, TokenizerError>) {
        let start = self.peek()?.span.start;
        Ok(Span { start, end: start })
    }

    fn collect_tokens(&mut self) -> (r: Result<Vec<Token>, TokenizerError>) {
        let mut result: Vec<Token> = Vec::new();
        loop
            invariant
                self.wf(),
                forall|i: int| 0 <= i < result@.len() ==> !(#[trigger] result@[i]@ is Eof),
            decreases self.remaining(),
        {
            let next = self.next()?;
            let eof = next.token.is_eof();
            result.push(next.token);
            if eof {
                proof {
                    let s = result@.map_values(|t: Token| t@);
                    assert forall|i: int| 0 <= i < s.len() - 1 implies !(#[trigger] s[i] is Eof) by {
                        assert(s[i] == result@[i]@);
                    }
                }
                return Ok(result);
            }
        }
    }
}

} // verus!

use vstd::prelude::*;
use vstd::string::*;
use vstd::utf8::*;

verus! {

/// A half-open `[start, end)` range of byte offsets into the source text.
#[derive(PartialEq, Eq, Structural, Debug, Clone, Copy)]
pub struct Span {
    pub start: usize,
    pub end: usize,
}

/// An error message located in the source text; the one error type of
/// tokenizing, parsing and evaluating.
#[derive(Debug, Clone)]
pub struct SpanError {
    pub message: String,
    pub span: Span,
}

/// What an error says and where: its message as characters and its span.
pub struct ErrorView {
    pub message: Seq<char>,
    pub span: Span,
}

impl View for SpanError {
    type V = ErrorView;

    open spec fn view(&self) -> ErrorView {
        ErrorView { message: self.message@, span: self.span }
    }
}

/// An error view built from its parts.
pub open spec fn error_at(message: Seq<char>, start: int, end: int) -> ErrorView {
    ErrorView { message, span: Span { start: start as usize, end: end as usize } }
}

impl SpanError {
    pub fn new(message: String, start: usize, end: usize) -> (r: SpanError)
        ensures
            r.message@ == message@,
            r.span == (Span { start, end }),
    {
        SpanError { message, span: Span { start, end } }
    }
}

/// The character of a decimal digit.
pub open spec fn digit_char(d: nat) -> char {
    if d == 0 { '0' } else if d == 1 { '1' } else if d == 2 { '2' } else if d == 3 { '3' }
    else if d == 4 { '4' } else if d == 5 { '5' } else if d == 6 { '6' } else if d == 7 { '7' }
    else if d == 8 { '8' } else { '9' }
}

/// The decimal digits of a natural number, most significant first, without leading zeros.
pub open spec fn digits_of(n: nat) -> Seq<char>
    decreases n,
{
    if n < 10 {
        seq![digit_char(n)]
    } else {
        digits_of(n / 10).push(digit_char(n % 10))
    }
}

/// The decimal text of an integer, with a leading `-` when it is negative.
pub open spec fn decimal(v: int) -> Seq<char> {
    if v < 0 {
        seq!['-'] + digits_of((-v) as nat)
    } else {
        digits_of(v as nat)
    }
}

/// Relies on the `Display` impl of `i128` through `format!`: it writes the
/// value in decimal, with a `-` before a negative value.
#[verifier::external_body]
pub(crate) fn decimal_text(v: i128) -> (r: String)
    ensures
        r@ == decimal(v as int),
{
    format!("{}", v)
}

/// Whether a byte starts a character of UTF-8 text (is no continuation byte).
pub open spec fn starts_char(b: u8) -> bool {
    b < 0x80 || b >= 0xC0
}

/// The number of newline bytes among the first `k` bytes.
pub open spec fn newlines_before(b: Seq<u8>, k: int) -> nat
    decreases k,
{
    if k <= 0 {
        0
    } else {
        newlines_before(b, k - 1) + if b[k - 1] == 10u8 { 1nat } else { 0nat }
    }
}

/// Where the line holding offset `k` starts: just after the last newline before `k`.
pub open spec fn line_start(b: Seq<u8>, k: int) -> int
    decreases k,
{
    if k <= 0 {
        0
    } else if b[k - 1] == 10u8 {
        k
    } else {
        line_start(b, k - 1)
    }
}

/// Where the line holding offset `k` ends: just after the first newline at or
/// after `k`, or at the end of the text.
pub open spec fn line_end(b: Seq<u8>, k: int) -> int
    decreases b.len() - k,
{
    if k >= b.len() {
        b.len() as int
    } else if b[k] == 10u8 {
        k + 1
    } else {
        line_end(b, k + 1)
    }
}

/// The number of characters that start in `[a, k)`.
pub open spec fn chars_between(b: Seq<u8>, a: int, k: int) -> nat
    decreases k - a,
{
    if k <= a {
        0
    } else {
        chars_between(b, a, k - 1) + if starts_char(b[k - 1]) { 1nat } else { 0nat }
    }
}

/// Where an offset lies: its line and column, both counted from one (the column
/// in characters), and the byte range of its line, trailing newline included.
pub open spec fn location(b: Seq<u8>, index: int) -> (usize, usize, usize, usize) {
    let k = if index < b.len() { index } else { b.len() as int };
    let start = line_start(b, k);
    (
        (1 + newlines_before(b, k)) as usize,
        (1 + chars_between(b, start, k)) as usize,
        start as usize,
        line_end(b, k) as usize,
    )
}

proof fn lemma_line_end_skip(b: Seq<u8>, k: int, i: int)
    requires
        0 <= k <= i <= b.len(),
        forall|j: int| k <= j < i ==> b[j] != 10u8,
    ensures
        line_end(b, k) == line_end(b, i),
    decreases i - k,
{
    if k < i {
        lemma_line_end_skip(b, k + 1, i);
    }
}

proof fn lemma_counts_bounded(b: Seq<u8>, a: int, k: int)
    requires
        0 <= a <= k,
    ensures
        newlines_before(b, k) <= k,
        chars_between(b, a, k) <= k - a,
    decreases k,
{
    if k > 0 {
        lemma_counts_bounded(b, if a < k { a } else { k - 1 }, k - 1);
    }
}

pub(crate) proof fn lemma_boundary_in_suffix(b: Seq<u8>, s: int, e: int)
    requires
        valid_utf8(b),
        0 <= s <= e <= b.len(),
        is_char_boundary(b, s),
        is_char_boundary(b, e),
    ensures
        is_char_boundary(b.subrange(s, b.len() as int), e - s),
{
    let r = b.subrange(s, b.len() as int);
    valid_utf8_split(b, s);
    if e == b.len() {
        is_char_boundary_start_end_of_seq(r);
    } else if e > s {
        is_char_boundary_iff_not_is_continuation_byte(b, e);
        is_char_boundary_iff_not_is_continuation_byte(r, e - s);
        assert(r[e - s] == b[e]);
    }
}

/// The line, column and line range of byte offset `index` in `text`.
fn line_info(text: &str, index: usize) -> (r: (usize, usize, usize, usize))
    requires
        text.spec_bytes().len() < usize::MAX,
    ensures
        r == location(text.spec_bytes(), index as int),
        r.2 <= r.3 <= text.spec_bytes().len(),
{
    let bytes = text.as_bytes();
    let n = bytes.len();
    let mut line: usize = 1;
    let mut position: usize = 1;
    let mut start: usize = 0;
    let mut i: usize = 0;
    while i < n
        invariant
            bytes@ == text.spec_bytes(),
            n == bytes@.len(),
            n < usize::MAX,
            i <= n,
            i <= index ==> line == 1 + newlines_before(bytes@, i as int),
            i <= index ==> start == line_start(bytes@, i as int),
            i <= index ==> position == 1 + chars_between(bytes@, start as int, i as int),
            index < i ==> line == 1 + newlines_before(bytes@, index as int),
            index < i ==> start == line_start(bytes@, index as int),
            index < i ==> position == 1 + chars_between(bytes@, start as int, index as int),
            index < i ==> forall|j: int| index <= j < i ==> bytes@[j] != 10u8,
            start <= i,
            line <= i + 1,
            position <= i + 1,
        decreases n - i,
    {
        proof {
            lemma_counts_bounded(bytes@, start as int, i as int);
        }
        if bytes[i] == 10u8 {
            if i >= index {
                proof {
                    lemma_line_end_skip(bytes@, index as int, i as int);
                }
                return (line, position, start, i + 1);
            }
            line = line + 1;
            position = 1;
            start = i + 1;
        } else if i < index {
            if bytes[i] < 0x80u8 || bytes[i] >= 0xC0u8 {
                position = position + 1;
            }
        }
        i = i + 1;
    }
    proof {
        if index < n {
            lemma_line_end_skip(bytes@, index as int, n as int);
        }
    }
    (line, position, start, n)
}

proof fn lemma_after_newline(b: Seq<u8>, j: int)
    requires
        valid_utf8(b),
        0 < j <= b.len(),
        b[j - 1] == 10u8,
    ensures
        is_char_boundary(b, j),
{
    if j == b.len() {
        is_char_boundary_start_end_of_seq(b);
    } else {
        is_char_boundary_iff_not_is_continuation_byte(b, j - 1);
        valid_utf8_split(b, j - 1);
        let r = b.subrange(j - 1, b.len() as int);
        assert(r[0] == 10u8);
        reveal_with_fuel(is_char_boundary, 2);
        assert(is_char_boundary(r, 1));
        is_char_boundary_iff_not_is_continuation_byte(r, 1);
        assert(r[1] == b[j]);
        is_char_boundary_iff_not_is_continuation_byte(b, j);
    }
}

proof fn lemma_line_bounds(b: Seq<u8>, k: int)
    requires
        0 <= k <= b.len(),
    ensures
        line_start(b, k) == 0 || (0 < line_start(b, k) <= b.len() && b[line_start(b, k) - 1]
            == 10u8),
        line_end(b, k) == b.len() || (0 < line_end(b, k) <= b.len() && b[line_end(b, k) - 1]
            == 10u8),
    decreases b.len() - k,
{
    lemma_line_start_bound(b, k);
    if k < b.len() && b[k] != 10u8 {
        lemma_line_bounds(b, k + 1);
    }
}

proof fn lemma_line_start_bound(b: Seq<u8>, k: int)
    requires
        0 <= k <= b.len(),
    ensures
        line_start(b, k) == 0 || (0 < line_start(b, k) <= b.len() && b[line_start(b, k) - 1]
            == 10u8),
    decreases k,
{
    if k > 0 && b[k - 1] != 10u8 {
        lemma_line_start_bound(b, k - 1);
    }
}

/// The text of an error for a reader: its message, then the line and column of
/// its start, then the whole line that holds it.
pub open spec fn rendered(message: Seq<char>, line: int, column: int, text: Seq<char>) -> Seq<char> {
    message + ", on line "@ + decimal(line) + " char "@ + decimal(column) + ":\n"@ + text
}

/// Renders an error against the source text it points into.
pub fn format_error(error: &SpanError, input: &str) -> (r: String)
    requires
        input.spec_bytes().len() < usize::MAX,
    ensures
        ({
            let (l, c, s, e) = location(input.spec_bytes(), error.span.start as int);
            r@ == rendered(
                error.message@,
                l as int,
                c as int,
                decode_utf8(input.spec_bytes().subrange(s as int, e as int)),
            )
        }),
{
    let (line_number, char_number, start, end) = line_info(input, error.span.start);
    let head = error.message.clone().concat(", on line ").concat(decimal_text(line_number as i128).as_str()).concat(" char ").concat(decimal_text(char_number as i128).as_str()).concat(":\n");
    proof {
        let b = input.spec_bytes();
        let k = if error.span.start < b.len() { error.span.start as int } else { b.len() as int };
        encode_utf8_valid_utf8(input@);
        lemma_line_bounds(b, k);
        if start > 0 {
            lemma_after_newline(b, start as int);
        } else {
            is_char_boundary_start_end_of_seq(b);
        }
        if end < b.len() {
            lemma_after_newline(b, end as int);
        } else {
            is_char_boundary_start_end_of_seq(b);
        }
        lemma_boundary_in_suffix(b, start as int, end as int);
    }
    let (_, rest) = input.split_at(start);
    let (line, _) = rest.split_at(end - start);
    proof {
        assert(line.spec_bytes() =~= input.spec_bytes().subrange(start as int, end as int));
        encode_utf8_decode_utf8(line@);
    }
    head.concat(line)
}

} // verus!

use vstd::prelude::*;

verus! {

/// Whether a byte is an ASCII decimal digit.
pub open spec fn is_digit(b: u8) -> bool {
    48 <= b <= 57
}

/// The value of a run of decimal digits, most significant first.
pub open spec fn digits_number(d: Seq<u8>) -> int
    decreases d.len(),
{
    if d.len() == 0 {
        0
    } else {
        digits_number(d.drop_last()) * 10 + (d.last() - 48)
    }
}

/// The value of `d` where it is a non-empty run of ASCII digits whose value is
/// at most `limit`.
pub open spec fn bounded_digits(d: Seq<u8>, limit: int) -> Option<int> {
    if d.len() > 0 && (forall|i: int| 0 <= i < d.len() ==> is_digit(#[trigger] d[i]))
        && digits_number(d) <= limit {
        Some(digits_number(d))
    } else {
        None
    }
}

/// A decimal integer literal, with an optional leading `+` or `-`, that fits an `i32`.
pub open spec fn int_literal(b: Seq<u8>) -> Option<i32> {
    if b.len() > 0 && b[0] == 45u8 {
        match bounded_digits(b.drop_first(), 0x8000_0000) {
            Some(v) => Some((-v) as i32),
            None => None,
        }
    } else {
        let d = if b.len() > 0 && b[0] == 43u8 { b.drop_first() } else { b };
        match bounded_digits(d, 0x7fff_ffff) {
            Some(v) => Some(v as i32),
            None => None,
        }
    }
}

proof fn lemma_digits_grow(d: Seq<u8>, k: int)
    requires
        0 <= k <= d.len(),
        forall|i: int| 0 <= i < d.len() ==> is_digit(#[trigger] d[i]),
    ensures
        digits_number(d.subrange(0, k)) <= digits_number(d),
        0 <= digits_number(d),
    decreases d.len(),
{
    if d.len() > 0 {
        lemma_digits_grow(d.drop_last(), if k < d.len() { k } else { d.len() - 1 });
        if k == d.len() {
            assert(d.subrange(0, k) =~= d);
        } else {
            assert(d.drop_last().subrange(0, k) =~= d.subrange(0, k));
        }
    }
}

/// The value of a run of digits, where it is non-empty, all ASCII digits, and at most `limit`.
pub(crate) fn digits_up_to(d: &[u8], limit: i64) -> (r: Option<i64>)
    requires
        0 <= limit <= 0x8000_0000,
    ensures
        r matches Some(v) ==> bounded_digits(d@, limit as int) == Some(v as int) && 0 <= v <= limit,
        r is None <==> bounded_digits(d@, limit as int) is None,
{
    if d.len() == 0 {
        return None;
    }
    let mut acc: i64 = 0;
    let mut i: usize = 0;
    while i < d.len()
        invariant
            0 <= limit <= 0x8000_0000,
            i <= d@.len(),
            d@.len() > 0,
            forall|j: int| 0 <= j < i ==> is_digit(#[trigger] d@[j]),
            acc == digits_number(d@.subrange(0, i as int)),
            0 <= acc <= limit,
        decreases d.len() - i,
    {
        let b = d[i];
        if b < 48u8 || b > 57u8 {
            return None;
        }
        proof {
            assert(d@.subrange(0, i + 1).drop_last() =~= d@.subrange(0, i as int));
        }
        acc = acc * 10 + (b - 48u8) as i64;
        i = i + 1;
        if acc > limit {
            proof {
                if forall|j: int| 0 <= j < d@.len() ==> is_digit(#[trigger] d@[j]) {
                    lemma_digits_grow(d@, i as int);
                }
            }
            return None;
        }
    }
    proof {
        assert(d@.subrange(0, i as int) =~= d@);
    }
    Some(acc)
}

/// Reads a decimal integer literal with an optional sign, as `str::parse::<i32>` does.
pub fn parse_int(b: &[u8]) -> (r: Option<i32>)
    ensures
        r == int_literal(b@),
{
    if b.len() > 0 && (b[0] == 45u8 || b[0] == 43u8) {
        let negative = b[0] == 45u8;
        let (_, rest) = b.split_at(1);
        proof {
            assert(rest@ =~= b@.drop_first());
        }
        if negative {
            match digits_up_to(rest, 0x8000_0000) {
                Some(v) => Some((-v) as i32),
                None => None,
            }
        } else {
            match digits_up_to(rest, 0x7fff_ffff) {
                Some(v) => Some(v as i32),
                None => None,
            }
        }
    } else {
        match digits_up_to(b, 0x7fff_ffff) {
            Some(v) => Some(v as i32),
            None => None,
        }
    }
}

} // verus!

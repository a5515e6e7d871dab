//! Decimal numbers in the fields of a record.

use vstd::prelude::*;

verus! {

/// The digit zero.
pub const ZERO: u8 = 48;

/// The digit nine.
pub const NINE: u8 = 57;

/// The plus sign.
pub const PLUS: u8 = 43;

/// The minus sign.
pub const MINUS: u8 = 45;

/// The decimal point.
pub const POINT: u8 = 46;

/// The small letter that stands before an exponent.
pub const SMALL_E: u8 = 101;

/// The capital letter that stands before an exponent.
pub const CAPITAL_E: u8 = 69;

/// Whether `b` is a decimal digit.
pub open spec fn is_digit(b: u8) -> bool {
    ZERO <= b <= NINE
}

/// Whether `s` holds decimal digits only.
pub open spec fn all_digits(s: Seq<u8>) -> bool {
    forall|i: int| 0 <= i < s.len() ==> is_digit(#[trigger] s[i])
}

/// The number that the decimal digits `s` denote; zero for none.
pub open spec fn number(s: Seq<u8>) -> nat
    decreases s.len(),
{
    if s.len() == 0 {
        0
    } else {
        number(s.drop_last()) * 10 + (s.last() - ZERO) as nat
    }
}

/// The node that a field names: decimal digits, one at least, after an
/// optional plus sign, that denote a number within `usize`.
pub open spec fn node_of(field: Seq<u8>) -> Option<usize> {
    let digits = if field.len() > 0 && field[0] == PLUS {
        field.skip(1)
    } else {
        field
    };
    if digits.len() > 0 && all_digits(digits) && number(digits) <= usize::MAX {
        Some(number(digits) as usize)
    } else {
        None
    }
}

/// The number of one digit more.
pub proof fn lemma_number_push(s: Seq<u8>, d: u8)
    requires
        is_digit(d),
    ensures
        number(s.push(d)) == number(s) * 10 + (d - ZERO),
{
    assert(s.push(d).drop_last() =~= s);
}

/// The first digits of a number denote no more than all of them.
pub proof fn lemma_number_grows(s: Seq<u8>, upto: int)
    requires
        all_digits(s),
        0 <= upto <= s.len(),
    ensures
        number(s.take(upto)) <= number(s),
    decreases s.len() - upto,
{
    if upto == s.len() {
        assert(s.take(upto) =~= s);
    } else {
        assert(s.take(upto + 1) =~= s.take(upto).push(s[upto]));
        lemma_number_push(s.take(upto), s[upto]);
        lemma_number_grows(s, upto + 1);
    }
}

/// The number that the bytes of `field` from `start` to `end` denote;
/// `None` where one of them is no digit or the number exceeds `limit`.
fn parse_digits(field: &[u8], start: usize, end: usize, limit: u128) -> (value: Option<
    u128,
>)
    requires
        start <= end <= field@.len(),
        limit <= 0xffff_ffff_ffff_ffff_ffff,
    ensures
        value == if all_digits(field@.subrange(start as int, end as int)) && number(
            field@.subrange(start as int, end as int),
        ) <= limit {
            Some(number(field@.subrange(start as int, end as int)) as u128)
        } else {
            None
        },
{
    let ghost digits = field@.subrange(start as int, end as int);
    let mut value: u128 = 0;
    let mut i: usize = start;
    while i < end
        invariant
            start <= i <= end <= field@.len(),
            digits == field@.subrange(start as int, end as int),
            limit <= 0xffff_ffff_ffff_ffff_ffff,
            all_digits(digits.take(i - start)),
            value == number(digits.take(i - start)),
            value <= limit,
        decreases end - i,
    {
        let b = field[i];
        assert(digits[i - start] == b);
        if b < ZERO || b > NINE {
            return None;
        }
        proof {
            assert(digits.take(i - start + 1) =~= digits.take(i - start).push(b));
            lemma_number_push(digits.take(i - start), b);
        }
        value = value * 10 + (b - ZERO) as u128;
        if value > limit {
            proof {
                if all_digits(digits) {
                    lemma_number_grows(digits, i - start + 1);
                }
            }
            return None;
        }
        i += 1;
    }
    assert(digits.take(i - start) =~= digits);
    Some(value)
}

/// The node that a field names.
pub fn parse_node(field: &[u8]) -> (node: Option<usize>)
    ensures
        node == node_of(field@),
{
    let start: usize = if field.len() > 0 && field[0] == PLUS {
        1
    } else {
        0
    };
    proof {
        assert(field@.subrange(0, field@.len() as int) =~= field@);
    }
    if start == field.len() {
        return None;
    }
    match parse_digits(field, start, field.len(), usize::MAX as u128) {
        Some(value) => Some(value as usize),
        None => None,
    }
}

} // verus!

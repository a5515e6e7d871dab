//! The weight in a field of a record.

use super::number::all_digits;
use super::number::is_digit;
use super::number::lemma_number_grows;
use super::number::lemma_number_push;
use super::number::number;
use super::number::CAPITAL_E;
use super::number::MINUS;
use super::number::NINE;
use super::number::PLUS;
use super::number::POINT;
use super::number::SMALL_E;
use super::number::ZERO;
use vstd::prelude::*;

verus! {

/// Where the first point of `s` stands; its length where it has none.
pub open spec fn point_at(s: Seq<u8>) -> int
    decreases s.len(),
{
    if s.len() == 0 {
        0
    } else if s[0] == POINT {
        0
    } else {
        1 + point_at(s.drop_first())
    }
}

/// Where the first letter `e` of `s` stands, small or capital; its length
/// where it has none.
pub open spec fn mark_at(s: Seq<u8>) -> int
    decreases s.len(),
{
    if s.len() == 0 {
        0
    } else if s[0] == SMALL_E || s[0] == CAPITAL_E {
        0
    } else {
        1 + mark_at(s.drop_first())
    }
}

/// The exponent that stands behind the letter `e`: an optional sign, then
/// decimal digits, one at least.
pub open spec fn exponent_of(part: Seq<u8>) -> Option<int> {
    let negative = part.len() > 0 && part[0] == MINUS;
    let signed = part.len() > 0 && (part[0] == MINUS || part[0] == PLUS);
    let digits = if signed { part.skip(1) } else { part };
    if digits.len() > 0 && all_digits(digits) {
        Some(if negative { -(number(digits) as int) } else { number(digits) as int })
    } else {
        None
    }
}

/// The digits of a number in millionths: those of `whole` and `fraction`
/// up to the sixth behind the point, after the point has moved to the
/// right by `exponent` places; zeros stand where the digits end before.
pub open spec fn moved_digits(whole: Seq<u8>, fraction: Seq<u8>, exponent: int) -> Seq<u8> {
    let digits = whole + fraction;
    let places = whole.len() + 6 + exponent;
    Seq::new(
        if places > 0 { places as nat } else { 0 },
        |i: int| if i < digits.len() { digits[i] } else { ZERO },
    )
}

/// The weight with the digits `whole` before the point and `fraction`
/// behind it, with a minus sign where `negative` is set, times ten to the
/// power of `exponent`: none where the digits are no digits or there is
/// none, where the exponent is none, or where the value does not fit.
pub open spec fn weight_from(
    negative: bool,
    whole: Seq<u8>,
    fraction: Seq<u8>,
    exponent: Option<int>,
) -> Option<i64> {
    if all_digits(whole) && all_digits(fraction) && whole.len() + fraction.len() > 0
        && exponent is Some {
        let size = number(moved_digits(whole, fraction, exponent->0));
        let value = if negative { -size } else { size as int };
        if i64::MIN <= value <= i64::MAX {
            Some(value as i64)
        } else {
            None
        }
    } else {
        None
    }
}

/// The weight that a field gives, as a fixed-point number. The field
/// holds an optional sign, then decimal digits with at most one point
/// among them, before them or behind them, and one digit at least; an
/// exponent of ten may follow, behind the letter `e`. Digits of the value
/// behind the sixth of its fraction are dropped. The field gives no weight
/// where the value does not fit.
pub open spec fn weight_of(field: Seq<u8>) -> Option<i64> {
    let negative = field.len() > 0 && field[0] == MINUS;
    let signed = field.len() > 0 && (field[0] == MINUS || field[0] == PLUS);
    let body = if signed { field.skip(1) } else { field };
    let mark = mark_at(body);
    let mantissa = body.take(mark);
    let exponent = if mark < body.len() { exponent_of(body.skip(mark + 1)) } else { Some(0int) };
    let point = point_at(mantissa);
    let whole = mantissa.take(point);
    let fraction = if point < mantissa.len() { mantissa.skip(point + 1) } else { Seq::empty() };
    weight_from(negative, whole, fraction, exponent)
}

/// `count` zeros.
pub open spec fn zeros(count: nat) -> Seq<u8> {
    Seq::new(count, |i: int| ZERO)
}

/// The power of ten with the exponent `k`.
pub open spec fn tens(k: nat) -> nat
    decreases k,
{
    if k == 0 {
        1
    } else {
        10 * tens((k - 1) as nat)
    }
}

/// The first point stands in front of what follows the bytes before it.
proof fn lemma_point_at(s: Seq<u8>, at: int)
    requires
        0 <= at <= s.len(),
        forall|i: int| 0 <= i < at ==> #[trigger] s[i] != POINT,
        at < s.len() ==> s[at] == POINT,
    ensures
        point_at(s) == at,
    decreases at,
{
    if at > 0 {
        let rest = s.drop_first();
        assert forall|i: int| 0 <= i < at - 1 implies #[trigger] rest[i] != POINT by {
            assert(rest[i] == s[i + 1]);
        }
        lemma_point_at(rest, at - 1);
    }
}

/// The first letter `e` stands in front of what follows the bytes before it.
proof fn lemma_mark_at(s: Seq<u8>, at: int)
    requires
        0 <= at <= s.len(),
        forall|i: int| 0 <= i < at ==> #[trigger] s[i] != SMALL_E && s[i] != CAPITAL_E,
        at < s.len() ==> s[at] == SMALL_E || s[at] == CAPITAL_E,
    ensures
        mark_at(s) == at,
    decreases at,
{
    if at > 0 {
        let rest = s.drop_first();
        assert forall|i: int| 0 <= i < at - 1 implies #[trigger] rest[i] != SMALL_E && rest[i]
            != CAPITAL_E by {
            assert(rest[i] == s[i + 1]);
        }
        lemma_mark_at(rest, at - 1);
    }
}

/// Zeros behind digits multiply their number by a power of ten.
proof fn lemma_number_zeros(s: Seq<u8>, count: nat)
    ensures
        number(s + zeros(count)) == number(s) * tens(count),
    decreases count,
{
    if count == 0 {
        assert(s + zeros(0) =~= s);
        assert(number(s) * tens(0) == number(s)) by (nonlinear_arith)
            requires
                tens(0) == 1,
        ;
    } else {
        let less = (count - 1) as nat;
        let shorter = s + zeros(less);
        lemma_number_zeros(s, less);
        assert(s + zeros(count) =~= shorter.push(ZERO));
        lemma_number_push(shorter, ZERO);
        assert(number(s) * tens(less) * 10 == number(s) * tens(count)) by (nonlinear_arith)
            requires
                tens(count) == 10 * tens(less),
        ;
    }
}

/// Nineteen zeros or more behind digits that are not all zero make a
/// number beyond the sixty-third power of two.
proof fn lemma_many_zeros(s: Seq<u8>, count: nat)
    requires
        all_digits(s),
        number(s) >= 1,
        count >= 19,
    ensures
        number(s + zeros(count)) > 0x8000_0000_0000_0000,
{
    lemma_number_zeros(s, 19);
    assert(tens(19) == 10_000_000_000_000_000_000) by {
        reveal_with_fuel(tens, 20);
    }
    assert(number(s) * tens(19) >= tens(19)) by (nonlinear_arith)
        requires
            number(s) >= 1,
    ;
    let all = s + zeros(count);
    assert(all.take(s.len() as int + 19) =~= s + zeros(19));
    lemma_number_grows(all, s.len() as int + 19);
}

/// The greatest size that a weight can have: the sixty-third power of two.
pub const LIMIT: u128 = 0x8000_0000_0000_0000;

/// A bound beyond which the size of an exponent is not told apart.
pub const FAR: u128 = 0x40_0000_0000_0000_0000;

/// Whether `negative` and `size` tell the exponent: its sign, and its size
/// as far as that is less than `FAR`.
pub open spec fn told(negative: bool, size: u128, exponent: int) -> bool {
    let distance = if exponent < 0 { -exponent } else { exponent };
    &&& negative ==> exponent <= 0
    &&& !negative ==> exponent >= 0
    &&& size <= FAR
    &&& size < FAR ==> distance == size
    &&& size == FAR ==> distance >= FAR
}

/// Whether the bytes of `field` from `from` to `to` are digits.
fn digits_in(field: &[u8], from: usize, to: usize) -> (ok: bool)
    requires
        from <= to <= field@.len(),
    ensures
        ok == all_digits(field@.subrange(from as int, to as int)),
{
    let ghost range = field@.subrange(from as int, to as int);
    let mut i: usize = from;
    while i < to
        invariant
            from <= i <= to <= field@.len(),
            range == field@.subrange(from as int, to as int),
            forall|k: int| 0 <= k < i - from ==> is_digit(#[trigger] range[k]),
        decreases to - i,
    {
        if field[i] < ZERO || field[i] > NINE {
            assert(!is_digit(range[i - from]));
            return false;
        }
        assert(range[i - from] == field@[i as int]);
        i += 1;
    }
    true
}

/// The number of the digits `prefix`, which is `before`, followed by the
/// digits of `field` from `from` to `to`; `None` where it exceeds `limit`.
fn accumulate(
    field: &[u8],
    from: usize,
    to: usize,
    before: u128,
    limit: u128,
    Ghost(prefix): Ghost<Seq<u8>>,
) -> (value: Option<u128>)
    requires
        from <= to <= field@.len(),
        all_digits(prefix),
        all_digits(field@.subrange(from as int, to as int)),
        before == number(prefix),
        before <= limit <= 0xffff_ffff_ffff_ffff_ffff,
    ensures
        value == if number(prefix + field@.subrange(from as int, to as int)) <= limit {
            Some(number(prefix + field@.subrange(from as int, to as int)) as u128)
        } else {
            None
        },
{
    let ghost range = field@.subrange(from as int, to as int);
    let ghost all = prefix + range;
    let mut value: u128 = before;
    let mut i: usize = from;
    assert(prefix + range.take(0) =~= prefix);
    while i < to
        invariant
            from <= i <= to <= field@.len(),
            range == field@.subrange(from as int, to as int),
            all == prefix + range,
            all_digits(all),
            value == number(prefix + range.take(i - from)),
            value <= limit <= 0xffff_ffff_ffff_ffff_ffff,
        decreases to - i,
    {
        let b = field[i];
        proof {
            let seen = prefix + range.take(i - from);
            assert(range[i - from] == b);
            assert(is_digit(all[prefix.len() + i - from]));
            assert(prefix + range.take(i - from + 1) =~= seen.push(b));
            lemma_number_push(seen, b);
        }
        value = value * 10 + (b - ZERO) as u128;
        if value > limit {
            proof {
                assert(all.take(prefix.len() as int + i - from + 1) =~= prefix + range.take(
                    i - from + 1,
                ));
                lemma_number_grows(all, prefix.len() as int + i - from + 1);
            }
            return None;
        }
        i += 1;
    }
    assert(range.take(i - from) =~= range);
    Some(value)
}

/// The number of the digits `prefix`, which is `before`, followed by
/// `zeros_behind` zeros; `None` where it exceeds the limit. Nineteen zeros stand
/// for any greater count.
fn pad(
    before: u128,
    count: u128,
    Ghost(zeros_behind): Ghost<nat>,
    Ghost(prefix): Ghost<Seq<u8>>,
) -> (value: Option<u128>)
    requires
        all_digits(prefix),
        before == number(prefix),
        before <= LIMIT,
        count == zeros_behind || (count >= 19 && zeros_behind >= 19),
    ensures
        value == if number(prefix + zeros(zeros_behind)) <= LIMIT {
            Some(number(prefix + zeros(zeros_behind)) as u128)
        } else {
            None
        },
{
    if before == 0 {
        proof {
            lemma_number_zeros(prefix, zeros_behind);
            assert(number(prefix) * tens(zeros_behind) == 0) by (nonlinear_arith)
                requires
                    number(prefix) == 0,
            ;
        }
        return Some(0);
    }
    if count >= 19 {
        proof {
            lemma_many_zeros(prefix, zeros_behind);
        }
        return None;
    }
    let ghost all = prefix + zeros(zeros_behind);
    let mut value: u128 = before;
    let mut i: u128 = 0;
    assert(prefix + zeros(0) =~= prefix);
    while i < count
        invariant
            i <= count == zeros_behind,
            all == prefix + zeros(zeros_behind),
            all_digits(all),
            value == number(prefix + zeros(i as nat)),
            value <= LIMIT,
        decreases count - i,
    {
        proof {
            let seen = prefix + zeros(i as nat);
            assert(prefix + zeros((i + 1) as nat) =~= seen.push(ZERO));
            lemma_number_push(seen, ZERO);
        }
        value = value * 10;
        if value > LIMIT {
            proof {
                assert(all.take(prefix.len() as int + i + 1) =~= prefix + zeros((i + 1) as nat));
                lemma_number_grows(all, prefix.len() as int + i + 1);
            }
            return None;
        }
        i += 1;
    }
    Some(value)
}

/// The exponent that stands in `field` from `from` on: whether it has a
/// minus sign, and its size, or `FAR` where that is less; `None` where
/// none stands there.
fn read_exponent(field: &[u8], from: usize) -> (exponent: Option<(bool, u128)>)
    requires
        from <= field@.len(),
    ensures
        match exponent {
            None => exponent_of(field@.skip(from as int)) is None,
            Some((negative, size)) => {
                let e = exponent_of(field@.skip(from as int));
                &&& e is Some
                &&& told(negative, size, e->0)
            },
        },
{
    let ghost part = field@.skip(from as int);
    let negative = from < field.len() && field[from] == MINUS;
    let start: usize = if from < field.len() && (field[from] == MINUS || field[from] == PLUS) {
        from + 1
    } else {
        from
    };
    let ghost digits = field@.subrange(start as int, field@.len() as int);
    proof {
        assert(part.skip(0) =~= part);
        if start > from {
            assert(part[0] == field@[from as int]);
            assert(part.skip(1) =~= digits);
        } else {
            assert(part =~= digits);
            if from < field@.len() {
                assert(part[0] == field@[from as int]);
            }
        }
    }
    if start == field.len() || !digits_in(field, start, field.len()) {
        return None;
    }
    let size = match accumulate(field, start, field.len(), 0, FAR - 1, Ghost(Seq::empty())) {
        Some(size) => size,
        None => FAR,
    };
    proof {
        assert(Seq::<u8>::empty() + digits =~= digits);
    }
    Some((negative, size))
}

/// How many digits of the whole part and of the fraction the number in
/// millionths takes, and how many zeros follow them, for a whole part of
/// `whole` digits and a fraction of `fraction` digits: `None` where it has
/// no digits at all. Nineteen zeros stand for any greater count.
fn portions(
    whole: usize,
    fraction: usize,
    negative: bool,
    size: u128,
    Ghost(exponent): Ghost<int>,
) -> (taken: Option<(usize, usize, u128)>)
    requires
        told(negative, size, exponent),
        whole + fraction <= usize::MAX,
    ensures
        match taken {
            None => whole + 6 + exponent <= 0,
            Some((from_whole, from_fraction, count)) => {
                let places = whole + 6 + exponent;
                let behind = places - from_whole - from_fraction;
                &&& places > 0
                &&& from_whole == if places < whole { places } else { whole as int }
                &&& from_fraction == if places - from_whole < fraction {
                    places - from_whole
                } else {
                    fraction as int
                }
                &&& count == behind || (count >= 19 && behind >= 19)
            },
        },
{
    let before: u128 = whole as u128 + 6;
    if negative && size >= before {
        return None;
    }
    let places: u128 = if negative {
        before - size
    } else {
        before + size
    };
    let from_whole: usize = if places < whole as u128 {
        places as usize
    } else {
        whole
    };
    let left: u128 = places - from_whole as u128;
    let from_fraction: usize = if left < fraction as u128 {
        left as usize
    } else {
        fraction
    };
    Some((from_whole, from_fraction, left - from_fraction as u128))
}

/// The digits in millionths are the digits taken from the whole part and
/// from the fraction, and zeros behind them.
proof fn lemma_moved_digits(
    whole: Seq<u8>,
    fraction: Seq<u8>,
    exponent: int,
    from_whole: int,
    from_fraction: int,
)
    requires
        all_digits(whole),
        all_digits(fraction),
        whole.len() + 6 + exponent > 0,
        from_whole == if whole.len() + 6 + exponent < whole.len() {
            whole.len() + 6 + exponent
        } else {
            whole.len() as int
        },
        from_fraction == if whole.len() + 6 + exponent - from_whole < fraction.len() {
            whole.len() + 6 + exponent - from_whole
        } else {
            fraction.len() as int
        },
    ensures
        moved_digits(whole, fraction, exponent) == whole.take(from_whole) + fraction.take(
            from_fraction,
        ) + zeros((whole.len() + 6 + exponent - from_whole - from_fraction) as nat),
        all_digits(moved_digits(whole, fraction, exponent)),
        all_digits(whole.take(from_whole)),
        all_digits(whole.take(from_whole) + fraction.take(from_fraction)),
        number(whole.take(from_whole)) <= number(moved_digits(whole, fraction, exponent)),
        number(whole.take(from_whole) + fraction.take(from_fraction)) <= number(
            moved_digits(whole, fraction, exponent),
        ),
{
    let digits = moved_digits(whole, fraction, exponent);
    let taken = whole.take(from_whole) + fraction.take(from_fraction);
    let behind = (whole.len() + 6 + exponent - from_whole - from_fraction) as nat;
    assert(digits =~= taken + zeros(behind));
    assert forall|i: int| 0 <= i < digits.len() implies is_digit(#[trigger] digits[i]) by {
        if i < whole.len() {
            assert(digits[i] == whole[i]);
        } else if i < whole.len() + fraction.len() {
            assert(digits[i] == fraction[i - whole.len()]);
        }
    }
    assert(digits.take(from_whole) =~= whole.take(from_whole));
    assert(digits.take(from_whole + from_fraction) =~= taken);
    lemma_number_grows(digits, from_whole);
    lemma_number_grows(digits, from_whole + from_fraction);
    assert forall|i: int| 0 <= i < taken.len() implies is_digit(#[trigger] taken[i]) by {
        assert(taken[i] == digits[i]);
    }
}

/// The number of the digits of a weight in millionths, whose whole part
/// stands in `field` from `start` to `point` and whose fraction stands
/// from `first` to `mark`, with an exponent that is negative or not and
/// has the size `size`, or a greater one where that is `FAR`; `None`
/// where the number exceeds the limit.
fn scaled_number(
    field: &[u8],
    start: usize,
    point: usize,
    first: usize,
    mark: usize,
    negative: bool,
    size: u128,
    Ghost(exponent): Ghost<int>,
) -> (value: Option<u128>)
    requires
        start <= point <= first <= mark <= field@.len(),
        all_digits(field@.subrange(start as int, point as int)),
        all_digits(field@.subrange(first as int, mark as int)),
        told(negative, size, exponent),
    ensures
        value == ({
            let digits = moved_digits(
                field@.subrange(start as int, point as int),
                field@.subrange(first as int, mark as int),
                exponent,
            );
            if number(digits) <= LIMIT {
                Some(number(digits) as u128)
            } else {
                None::<u128>
            }
        }),
{
    let ghost whole = field@.subrange(start as int, point as int);
    let ghost fraction = field@.subrange(first as int, mark as int);
    let (from_whole, from_fraction, count) = match portions(
        point - start,
        mark - first,
        negative,
        size,
        Ghost(exponent),
    ) {
        Some(taken) => taken,
        None => {
            assert(moved_digits(whole, fraction, exponent) =~= Seq::<u8>::empty());
            return Some(0);
        },
    };
    let ghost behind = (whole.len() + 6 + exponent - from_whole - from_fraction) as nat;
    let ghost taken = whole.take(from_whole as int) + fraction.take(from_fraction as int);
    proof {
        lemma_moved_digits(whole, fraction, exponent, from_whole as int, from_fraction as int);
        assert(whole.take(from_whole as int) =~= field@.subrange(
            start as int,
            start + from_whole,
        ));
        assert(fraction.take(from_fraction as int) =~= field@.subrange(
            first as int,
            first + from_fraction,
        ));
        assert(Seq::<u8>::empty() + whole.take(from_whole as int) =~= whole.take(
            from_whole as int,
        ));
    }
    let whole_number = match accumulate(
        field,
        start,
        start + from_whole,
        0,
        LIMIT,
        Ghost(Seq::empty()),
    ) {
        Some(number) => number,
        None => {
            return None;
        },
    };
    let both = match accumulate(
        field,
        first,
        first + from_fraction,
        whole_number,
        LIMIT,
        Ghost(whole.take(from_whole as int)),
    ) {
        Some(number) => number,
        None => {
            return None;
        },
    };
    pad(both, count, Ghost(behind), Ghost(taken))
}

/// The exponent that follows the letter `e` at `mark`; zero where the
/// field ends there.
pub open spec fn exponent_behind(field: Seq<u8>, mark: int) -> Option<int> {
    if mark < field.len() {
        exponent_of(field.skip(mark + 1))
    } else {
        Some(0int)
    }
}

/// The weight whose whole part stands in `field` from `start` to `point`,
/// whose fraction stands from `first` to `mark`, and whose exponent
/// follows `mark`.
fn weigh(
    field: &[u8],
    negative: bool,
    start: usize,
    point: usize,
    first: usize,
    mark: usize,
) -> (weight: Option<i64>)
    requires
        start <= point <= first <= mark <= field@.len(),
    ensures
        weight == weight_from(
            negative,
            field@.subrange(start as int, point as int),
            field@.subrange(first as int, mark as int),
            exponent_behind(field@, mark as int),
        ),
{
    if !digits_in(field, start, point) || !digits_in(field, first, mark) {
        return None;
    }
    if (point - start) + (mark - first) == 0 {
        return None;
    }
    let (turned, exponent_size) = if mark < field.len() {
        match read_exponent(field, mark + 1) {
            Some(exponent) => exponent,
            None => {
                return None;
            },
        }
    } else {
        (false, 0)
    };
    let ghost exponent = exponent_behind(field@, mark as int)->0;
    let size = match scaled_number(
        field,
        start,
        point,
        first,
        mark,
        turned,
        exponent_size,
        Ghost(exponent),
    ) {
        Some(size) => size,
        None => {
            return None;
        },
    };
    if negative {
        if size == LIMIT {
            Some(i64::MIN)
        } else {
            Some(-(size as i64))
        }
    } else if size == LIMIT {
        None
    } else {
        Some(size as i64)
    }
}

/// Where the first letter `e` of `field` stands at or behind `start`.
fn find_mark(field: &[u8], start: usize) -> (mark: usize)
    requires
        start <= field@.len(),
    ensures
        start <= mark <= field@.len(),
        mark - start == mark_at(field@.skip(start as int)),
{
    let ghost body = field@.skip(start as int);
    let mut mark: usize = start;
    while mark < field.len() && field[mark] != SMALL_E && field[mark] != CAPITAL_E
        invariant
            start <= mark <= field@.len(),
            forall|k: int|
                start <= k < mark ==> #[trigger] field@[k] != SMALL_E && field@[k] != CAPITAL_E,
        decreases field.len() - mark,
    {
        mark += 1;
    }
    proof {
        assert forall|i: int| 0 <= i < mark - start implies #[trigger] body[i] != SMALL_E
            && body[i] != CAPITAL_E by {
            assert(body[i] == field@[start + i]);
        }
        if mark < field@.len() {
            assert(body[mark - start] == field@[mark as int]);
        }
        lemma_mark_at(body, mark - start);
    }
    mark
}

/// Where the first point of `field` stands from `start` on and before `mark`.
fn find_point(field: &[u8], start: usize, mark: usize) -> (point: usize)
    requires
        start <= mark <= field@.len(),
    ensures
        start <= point <= mark,
        point - start == point_at(field@.subrange(start as int, mark as int)),
{
    let ghost mantissa = field@.subrange(start as int, mark as int);
    let mut point: usize = start;
    while point < mark && field[point] != POINT
        invariant
            start <= point <= mark <= field@.len(),
            forall|k: int| start <= k < point ==> #[trigger] field@[k] != POINT,
        decreases mark - point,
    {
        point += 1;
    }
    proof {
        assert forall|i: int| 0 <= i < point - start implies #[trigger] mantissa[i] != POINT by {
            assert(mantissa[i] == field@[start + i]);
        }
        if point < mark {
            assert(mantissa[point - start] == field@[point as int]);
        }
        lemma_point_at(mantissa, point - start);
    }
    point
}

/// The weight that a field gives.
pub fn parse_weight(field: &[u8]) -> (weight: Option<i64>)
    ensures
        weight == weight_of(field@),
{
    let negative = field.len() > 0 && field[0] == MINUS;
    let start: usize = if field.len() > 0 && (field[0] == MINUS || field[0] == PLUS) {
        1
    } else {
        0
    };
    let mark = find_mark(field, start);
    let point = find_point(field, start, mark);
    let first: usize = if point < mark {
        point + 1
    } else {
        mark
    };
    proof {
        assert(field@.skip(0) =~= field@);
        let body = field@.skip(start as int);
        let mantissa = body.take(mark - start);
        assert(mantissa =~= field@.subrange(start as int, mark as int));
        assert(mantissa.take(point - start) =~= field@.subrange(start as int, point as int));
        if point < mark {
            assert(mantissa.skip(point - start + 1) =~= field@.subrange(
                first as int,
                mark as int,
            ));
        } else {
            assert(field@.subrange(first as int, mark as int) =~= Seq::<u8>::empty());
        }
        if mark < field@.len() {
            assert(body.skip(mark - start + 1) =~= field@.skip(mark + 1));
        }
    }
    weigh(field, negative, start, point, first, mark)
}

} // verus!

//! Numbers of the format as exact fixed-point decimals.

use vstd::prelude::*;
use crate::bytes::{in_class, lemma_run_end, run_end, scan, ByteClass, MINUS, POINT, ZERO};

verus! {

/// The number of units that make up one: ten to the power of eighteen.
pub const UNIT: i128 = 1_000_000_000_000_000_000;

/// The weight of the first decimal place, in units.
pub const TENTH: i128 = 100_000_000_000_000_000;

/// A decimal number with eighteen decimal places, held as a count of units of
/// ten to the power of minus eighteen. Numbers are compared by their units.
#[derive(Clone, Copy, Debug, PartialEq, Eq, Structural)]
pub struct Decimal {
    pub units: i128,
}

/// The number that a sequence of decimal digits writes.
pub open spec fn digits_value(s: Seq<u8>) -> nat
    decreases s.len(),
{
    if s.len() == 0 {
        0
    } else {
        digits_value(s.drop_last()) * 10 + (s.last() - ZERO) as nat
    }
}

/// The units that a sequence of decimal places is worth, where the first
/// place weighs `weight` units and each further one a tenth of the place
/// before it, rounded down. Places that weigh less than a unit count nothing.
pub open spec fn places_units(s: Seq<u8>, weight: int) -> int
    decreases s.len(),
{
    if s.len() == 0 {
        0
    } else {
        (s[0] - ZERO) * weight + places_units(s.drop_first(), weight / 10)
    }
}

/// The length of the sign of a literal: one where it starts with a minus.
pub open spec fn sign_len(t: Seq<u8>) -> int {
    if t.len() > 0 && t[0] == MINUS {
        1
    } else {
        0
    }
}

/// The end of the digits before the decimal point.
pub open spec fn whole_end(t: Seq<u8>) -> int {
    run_end(t, ByteClass::Digit, sign_len(t))
}

/// Whether `t` is, from its first byte to its last, a whole number: an
/// optional minus and one or more digits.
pub open spec fn is_integer_text(t: Seq<u8>) -> bool {
    sign_len(t) < whole_end(t) == t.len()
}

/// Whether `t` is, from its first byte to its last, a number of the format:
/// an optional minus, one or more digits, and optionally a point with one or
/// more digits behind it. There is no exponent.
pub open spec fn is_number_text(t: Seq<u8>) -> bool {
    let b = whole_end(t);
    sign_len(t) < b && (b == t.len() || (t[b] == POINT && b + 1 < t.len() && run_end(
        t,
        ByteClass::Digit,
        b + 1,
    ) == t.len()))
}

/// The digits before the decimal point.
pub open spec fn whole_digits(t: Seq<u8>) -> Seq<u8> {
    t.subrange(sign_len(t), whole_end(t))
}

/// The digits behind the decimal point; none where there is no point.
pub open spec fn fraction_digits(t: Seq<u8>) -> Seq<u8> {
    if whole_end(t) < t.len() {
        t.subrange(whole_end(t) + 1, t.len() as int)
    } else {
        Seq::empty()
    }
}

/// The size of a number literal, in units, without its sign. Decimal places
/// after the eighteenth are dropped.
pub open spec fn magnitude_units(t: Seq<u8>) -> int {
    digits_value(whole_digits(t)) * UNIT + places_units(fraction_digits(t), TENTH as int)
}

/// What a literal decodes to: the number it writes, where it is a number of
/// the format whose whole part is below ten to the power of eighteen.
pub open spec fn decimal_of(t: Seq<u8>) -> Option<Decimal> {
    if is_number_text(t) && digits_value(whole_digits(t)) < UNIT {
        Some(
            Decimal {
                units: (if sign_len(t) == 1 {
                    -magnitude_units(t)
                } else {
                    magnitude_units(t)
                }) as i128,
            },
        )
    } else {
        None
    }
}

/// What a literal decodes to as a count: the whole number it writes, where it
/// is one and a 32-bit signed integer holds it.
pub open spec fn integer_of(t: Seq<u8>) -> Option<i32> {
    let v = if sign_len(t) == 1 {
        -(digits_value(whole_digits(t)) as int)
    } else {
        digits_value(whole_digits(t)) as int
    };
    if is_integer_text(t) && i32::MIN <= v <= i32::MAX {
        Some(v as i32)
    } else {
        None
    }
}

/// Digits that are added behind a number do not make it smaller.
pub proof fn lemma_digits_value_grows(s: Seq<u8>, k: int)
    requires
        0 <= k <= s.len(),
        forall|j: int| 0 <= j < s.len() ==> in_class(ByteClass::Digit, #[trigger] s[j]),
    ensures
        digits_value(s.subrange(0, k)) <= digits_value(s),
    decreases s.len() - k,
{
    if k < s.len() {
        let t = s.subrange(0, k + 1);
        assert(t.drop_last() =~= s.subrange(0, k));
        lemma_digits_value_grows(s, k + 1);
    } else {
        assert(s.subrange(0, k) =~= s);
    }
}

/// Reads the digits of `t` from `from` to `to` as a number, or tells that it
/// reaches `limit`.
fn read_digits(t: &[u8], from: usize, to: usize, limit: u128) -> (r: Option<u128>)
    requires
        from <= to <= t.len(),
        limit <= UNIT,
        forall|j: int| from <= j < to ==> in_class(ByteClass::Digit, #[trigger] t@[j]),
    ensures
        match r {
            Some(v) => v == digits_value(t@.subrange(from as int, to as int)) && v < limit,
            None => digits_value(t@.subrange(from as int, to as int)) >= limit,
        },
{
    let ghost digits = t@.subrange(from as int, to as int);
    let mut acc: u128 = 0;
    let mut i: usize = from;
    proof {
        assert(t@.subrange(from as int, from as int) =~= Seq::<u8>::empty());
    }
    while i < to
        invariant
            from <= i <= to <= t.len(),
            limit <= UNIT,
            digits == t@.subrange(from as int, to as int),
            forall|j: int| from <= j < to ==> in_class(ByteClass::Digit, #[trigger] t@[j]),
            acc == digits_value(t@.subrange(from as int, i as int)),
            acc < limit || i == from,
            acc <= UNIT,
        decreases to - i,
    {
        let d: u8 = t[i] - ZERO;
        proof {
            let next = t@.subrange(from as int, i + 1);
            assert(next.drop_last() =~= t@.subrange(from as int, i as int));
            assert(next.last() == t@[i as int]);
            assert(in_class(ByteClass::Digit, t@[i as int]));
        }
        acc = acc * 10 + d as u128;
        i += 1;
        if acc >= limit {
            proof {
                assert(t@.subrange(from as int, i as int) =~= digits.subrange(0, i - from));
                assert forall|j: int| 0 <= j < digits.len() implies in_class(
                    ByteClass::Digit,
                    #[trigger] digits[j],
                ) by {
                    assert(digits[j] == t@[from + j]);
                }
                lemma_digits_value_grows(digits, i - from);
            }
            return None;
        }
    }
    if acc >= limit {
        return None;
    }
    Some(acc)
}

/// Reads the decimal places of `t` from `from` to `to` as units.
fn read_places(t: &[u8], from: usize, to: usize) -> (r: u128)
    requires
        from <= to <= t.len(),
        forall|j: int| from <= j < to ==> in_class(ByteClass::Digit, #[trigger] t@[j]),
    ensures
        r == places_units(t@.subrange(from as int, to as int), TENTH as int),
        r <= UNIT,
{
    let mut acc: u128 = 0;
    let mut weight: u128 = TENTH as u128;
    let mut i: usize = from;
    while i < to
        invariant
            from <= i <= to <= t.len(),
            forall|j: int| from <= j < to ==> in_class(ByteClass::Digit, #[trigger] t@[j]),
            weight <= TENTH,
            acc + 10 * weight <= UNIT,
            places_units(t@.subrange(from as int, to as int), TENTH as int) == acc + places_units(
                t@.subrange(i as int, to as int),
                weight as int,
            ),
        decreases to - i,
    {
        let d: u8 = t[i] - ZERO;
        proof {
            let rest = t@.subrange(i as int, to as int);
            assert(rest.drop_first() =~= t@.subrange(i + 1, to as int));
            assert(rest[0] == t@[i as int]);
            assert(in_class(ByteClass::Digit, t@[i as int]));
            assert(d * weight <= 9 * weight) by (nonlinear_arith)
                requires
                    0 <= d <= 9,
                    0 <= weight,
            ;
        }
        acc = acc + d as u128 * weight;
        weight = weight / 10;
        i += 1;
    }
    proof {
        assert(t@.subrange(to as int, to as int) =~= Seq::<u8>::empty());
    }
    acc
}

/// Decodes a number literal: `t` is the whole literal. The result is `None`
/// where `t` is no number of the format, or where its whole part does not fit.
pub fn decode_number(t: &[u8]) -> (r: Option<Decimal>)
    ensures
        r == decimal_of(t@),
{
    let n = t.len();
    let a: usize = if n > 0 && t[0] == MINUS {
        1
    } else {
        0
    };
    let b = scan(t, ByteClass::Digit, a);
    proof {
        lemma_run_end(t@, ByteClass::Digit, a as int);
    }
    if b == a {
        return None;
    }
    if b < n {
        if t[b] != POINT || b + 1 == n {
            return None;
        }
        let c = scan(t, ByteClass::Digit, b + 1);
        proof {
            lemma_run_end(t@, ByteClass::Digit, b + 1);
        }
        if c != n {
            return None;
        }
    }
    let whole: u128 = match read_digits(t, a, b, UNIT as u128) {
        Some(v) => v,
        None => {
            return None;
        },
    };
    let places: u128 = if b < n {
        read_places(t, b + 1, n)
    } else {
        0
    };
    assert(whole * UNIT <= (UNIT - 1) * UNIT) by (nonlinear_arith)
        requires
            0 <= whole <= UNIT - 1,
    ;
    let magnitude: i128 = (whole * (UNIT as u128) + places) as i128;
    Some(
        Decimal {
            units: if a == 1 {
                -magnitude
            } else {
                magnitude
            },
        },
    )
}

/// Decodes a count: `t` is the whole literal. The result is `None` where `t`
/// is no whole number, or where a 32-bit signed integer does not hold it.
pub fn decode_integer(t: &[u8]) -> (r: Option<i32>)
    ensures
        r == integer_of(t@),
{
    let n = t.len();
    let a: usize = if n > 0 && t[0] == MINUS {
        1
    } else {
        0
    };
    let b = scan(t, ByteClass::Digit, a);
    proof {
        lemma_run_end(t@, ByteClass::Digit, a as int);
    }
    if b == a || b != n {
        return None;
    }
    match read_digits(t, a, b, 2_147_483_649) {
        Some(v) => {
            if a == 1 {
                Some((-(v as i64)) as i32)
            } else if v <= 2_147_483_647 {
                Some(v as i32)
            } else {
                None
            }
        },
        None => None,
    }
}

} // verus!

//! The numbers of a tar header and of PAX records.

use vstd::prelude::*;
use vstd::slice::slice_subrange;

use crate::error::Fault;

verus! {

/// Whether a byte is an ASCII decimal digit.
pub open spec fn is_digit(byte: u8) -> bool {
    48 <= byte <= 57
}

/// Whether every byte is a decimal digit.
pub open spec fn all_digits(s: Seq<u8>) -> bool {
    forall|i: int| 0 <= i < s.len() ==> is_digit(#[trigger] s[i])
}

/// The number that ASCII digits write in a base.
pub open spec fn digits_value(s: Seq<u8>, base: nat) -> nat
    decreases s.len(),
{
    if s.len() == 0 {
        0
    } else {
        digits_value(s.drop_last(), base) * base + (s.last() - 48) as nat
    }
}

/// The number that bytes hold in big-endian order.
pub open spec fn big_endian(s: Seq<u8>) -> nat
    decreases s.len(),
{
    if s.len() == 0 {
        0
    } else {
        big_endian(s.drop_last()) * 256 + s.last() as nat
    }
}

/// A power of a base.
pub open spec fn power(base: nat, exponent: nat) -> nat
    decreases exponent,
{
    if exponent == 0 {
        1
    } else {
        base * power(base, (exponent - 1) as nat)
    }
}

/// Where a run of blanks (zero bytes and spaces) that starts at `from` ends.
pub open spec fn blanks_end(s: Seq<u8>, from: int) -> int
    decreases s.len() - from,
{
    if from < s.len() && (s[from] == 0 || s[from] == 32) {
        blanks_end(s, from + 1)
    } else {
        from
    }
}

/// Where a run of decimal digits that starts at `from` ends.
pub open spec fn digits_end(s: Seq<u8>, from: int) -> int
    decreases s.len() - from,
{
    if from < s.len() && is_digit(s[from]) {
        digits_end(s, from + 1)
    } else {
        from
    }
}

/// The digits of a header field: those that follow its leading blanks.
pub open spec fn field_digits(field: Seq<u8>) -> Seq<u8> {
    field.subrange(blanks_end(field, 0), digits_end(field, blanks_end(field, 0)))
}

/// A value if it fits in 64 bits, and a fault otherwise.
pub open spec fn fit(value: nat, fault: Fault) -> Result<u64, Fault> {
    if value <= u64::MAX {
        Ok(value as u64)
    } else {
        Err(fault)
    }
}

/// The unsigned number in a header field. With the top bit of its first byte
/// set, the field is a big-endian number without the two top bits, the second
/// of which marks negative numbers; without it, it is octal text.
pub open spec fn number(field: Seq<u8>) -> Result<u64, Fault> {
    if field.len() > 0 && field[0] & 0x80 != 0 {
        if field[0] & 0x40 != 0 {
            Err(Fault::NegativeNumber)
        } else {
            fit(big_endian(field.update(0, field[0] & 0x3f)), Fault::NumericOverflow)
        }
    } else {
        let digits = field_digits(field);
        if exists|i: int| 0 <= i < digits.len() && #[trigger] digits[i] > 55 {
            Err(Fault::InvalidOctal)
        } else {
            fit(digits_value(digits, 8), Fault::NumericOverflow)
        }
    }
}

/// The last eight bytes, or all where there are fewer.
pub open spec fn last_eight(field: Seq<u8>) -> Seq<u8> {
    if field.len() > 8 {
        field.skip(field.len() - 8)
    } else {
        field
    }
}

/// The number in a header field that admits negative ones. One marked negative
/// takes the low bytes of the field, the top bit of the first of them cleared;
/// a field shorter than eight bytes is extended by set bits in front of them.
pub open spec fn signed_number(field: Seq<u8>) -> Result<i64, Fault> {
    if field.len() > 0 && field[0] & 0x80 != 0 && field[0] & 0x40 != 0 {
        let low = last_eight(field);
        let value = big_endian(low.update(0, low[0] & 0x7f));
        if field.len() >= 8 {
            Ok(value as i64)
        } else {
            Ok((value - power(256, field.len())) as i64)
        }
    } else {
        match number(field) {
            Ok(value) => if value <= i64::MAX {
                Ok(value as i64)
            } else {
                Err(Fault::SignedOverflow)
            },
            Err(fault) => Err(fault),
        }
    }
}

/// The number that a decimal text writes.
pub open spec fn decimal(s: Seq<u8>) -> Result<u64, Fault> {
    if s.len() == 0 || !all_digits(s) {
        Err(Fault::InvalidDecimal)
    } else {
        fit(digits_value(s, 10), Fault::DecimalOverflow)
    }
}

/// The digits of a decimal text that may start with a sign.
pub open spec fn unsigned_part(s: Seq<u8>) -> Seq<u8> {
    if s.len() > 0 && (s[0] == 43 || s[0] == 45) {
        s.skip(1)
    } else {
        s
    }
}

/// The signed 64-bit number that a decimal text with an optional sign writes.
pub open spec fn signed_decimal(s: Seq<u8>) -> Option<i64> {
    let digits = unsigned_part(s);
    let value: int = if s.len() > 0 && s[0] == 45 {
        -(digits_value(digits, 10) as int)
    } else {
        digits_value(digits, 10) as int
    };
    if digits.len() > 0 && all_digits(digits) && i64::MIN <= value <= i64::MAX {
        Some(value as i64)
    } else {
        None
    }
}

/// Reading more digits never makes a number smaller.
pub proof fn lemma_digits_grow(s: Seq<u8>, upto: int, base: nat)
    requires
        0 <= upto <= s.len(),
        base >= 1,
    ensures
        digits_value(s.take(upto), base) <= digits_value(s, base),
    decreases s.len(),
{
    if upto == s.len() {
        assert(s.take(upto) =~= s);
    } else {
        lemma_digits_grow(s.drop_last(), upto, base);
        assert(s.drop_last().take(upto) =~= s.take(upto));
        let low = digits_value(s.drop_last(), base);
        assert(low * base >= low) by (nonlinear_arith)
            requires
                base >= 1,
        ;
    }
}

/// Reading more bytes never makes a big-endian number smaller.
pub proof fn lemma_big_endian_grows(s: Seq<u8>, upto: int)
    requires
        0 <= upto <= s.len(),
    ensures
        big_endian(s.take(upto)) <= big_endian(s),
    decreases s.len(),
{
    if upto == s.len() {
        assert(s.take(upto) =~= s);
    } else {
        lemma_big_endian_grows(s.drop_last(), upto);
        assert(s.drop_last().take(upto) =~= s.take(upto));
    }
}

/// A big-endian number stays below the power of its length.
pub proof fn lemma_big_endian_bound(s: Seq<u8>)
    ensures
        big_endian(s) < power(256, s.len()),
    decreases s.len(),
{
    if s.len() > 0 {
        lemma_big_endian_bound(s.drop_last());
    }
}

/// Runs of blanks and digits end within the field and hold what they should.
pub proof fn lemma_runs(s: Seq<u8>, from: int)
    requires
        0 <= from <= s.len(),
    ensures
        from <= blanks_end(s, from) <= s.len(),
        from <= digits_end(s, from) <= s.len(),
        forall|i: int| from <= i < digits_end(s, from) ==> is_digit(#[trigger] s[i]),
    decreases s.len() - from,
{
    if from < s.len() {
        lemma_runs(s, from + 1);
    }
}

/// Folds decimal digits into a number, unless it does not fit.
fn fold_digits(s: &[u8], base: u64) -> (value: Option<u64>)
    requires
        all_digits(s@),
        base >= 1,
    ensures
        value == (if digits_value(s@, base as nat) <= u64::MAX {
            Some(digits_value(s@, base as nat) as u64)
        } else {
            None
        }),
{
    let mut value: u64 = 0;
    let mut i: usize = 0;
    while i < s.len()
        invariant
            all_digits(s@),
            base >= 1,
            i <= s@.len(),
            value == digits_value(s@.take(i as int), base as nat),
        decreases s@.len() - i,
    {
        proof {
            assert(s@.take(i + 1).drop_last() =~= s@.take(i as int));
            assert(s@.take(i + 1).last() == s@[i as int]);
            lemma_digits_grow(s@, i + 1, base as nat);
            assert(is_digit(s@[i as int]));
        }
        let digit: u64 = (s[i] - 48) as u64;
        match value.checked_mul(base) {
            Some(shifted) => match shifted.checked_add(digit) {
                Some(sum) => {
                    value = sum;
                },
                None => {
                    return None;
                },
            },
            None => {
                return None;
            },
        }
        i = i + 1;
    }
    assert(s@.take(s@.len() as int) =~= s@);
    Some(value)
}

/// Reads an unsigned number from a header field.
pub fn parse_number(field: &[u8]) -> (value: Result<u64, Fault>)
    ensures
        value == number(field@),
{
    if field.len() > 0 && field[0] & 0x80 != 0 {
        if field[0] & 0x40 != 0 {
            return Err(Fault::NegativeNumber);
        }
        let ghost whole = field@.update(0, field@[0] & 0x3f);
        let mut value: u64 = (field[0] & 0x3f) as u64;
        proof {
            assert(whole.take(1).drop_last() =~= Seq::<u8>::empty());
            assert(big_endian(whole.take(1).drop_last()) == 0);
        }
        let mut i: usize = 1;
        while i < field.len()
            invariant
                1 <= i <= field@.len(),
                whole == field@.update(0, field@[0] & 0x3f),
                number(field@) == fit(big_endian(whole), Fault::NumericOverflow),
                value == big_endian(whole.take(i as int)),
            decreases field@.len() - i,
        {
            proof {
                assert(whole.take(i + 1).drop_last() =~= whole.take(i as int));
                assert(whole.take(i + 1).last() == field@[i as int]);
                lemma_big_endian_grows(whole, i + 1);
            }
            match value.checked_mul(256) {
                Some(shifted) => match shifted.checked_add(field[i] as u64) {
                    Some(sum) => {
                        value = sum;
                    },
                    None => {
                        return Err(Fault::NumericOverflow);
                    },
                },
                None => {
                    return Err(Fault::NumericOverflow);
                },
            }
            i = i + 1;
        }
        assert(whole.take(whole.len() as int) =~= whole);
        return Ok(value);
    }
    let mut start: usize = 0;
    while start < field.len() && (field[start] == 0 || field[start] == 32)
        invariant
            start <= field@.len(),
            blanks_end(field@, 0) == blanks_end(field@, start as int),
        decreases field@.len() - start,
    {
        start = start + 1;
    }
    let mut end: usize = start;
    while end < field.len() && field[end] >= 48 && field[end] <= 57
        invariant
            start <= end <= field@.len(),
            digits_end(field@, start as int) == digits_end(field@, end as int),
        decreases field@.len() - end,
    {
        end = end + 1;
    }
    let digits = slice_subrange(field, start, end);
    proof {
        lemma_runs(field@, 0);
        lemma_runs(field@, start as int);
        assert(all_digits(digits@)) by {
            assert forall|i: int| 0 <= i < digits@.len() implies is_digit(
                #[trigger] digits@[i],
            ) by {
                assert(is_digit(field@[start + i]));
            }
        }
    }
    let mut i: usize = 0;
    while i < digits.len()
        invariant
            i <= digits@.len(),
            digits@ == field_digits(field@),
            forall|j: int| 0 <= j < i ==> #[trigger] digits@[j] <= 55,
            !(field@.len() > 0 && field@[0] & 0x80 != 0),
        decreases digits@.len() - i,
    {
        if digits[i] > 55 {
            assert(digits@[i as int] > 55);
            return Err(Fault::InvalidOctal);
        }
        i = i + 1;
    }
    match fold_digits(digits, 8) {
        Some(value) => Ok(value),
        None => Err(Fault::NumericOverflow),
    }
}

/// Reads a number that may be negative from a header field.
pub fn parse_signed_number(field: &[u8]) -> (value: Result<i64, Fault>)
    ensures
        value == signed_number(field@),
{
    if field.len() > 0 && field[0] & 0x80 != 0 && field[0] & 0x40 != 0 {
        let source = if field.len() > 8 {
            slice_subrange(field, field.len() - 8, field.len())
        } else {
            field
        };
        let ghost low = source@.update(0, source@[0] & 0x7f);
        assert(source@ =~= last_eight(field@));
        let mut value: u64 = (source[0] & 0x7f) as u64;
        let mut scale: u64 = 256;
        let first: u8 = source[0];
        assert(first & 0x7f < 128) by (bit_vector);
        proof {
            assert(low.take(1).drop_last() =~= Seq::<u8>::empty());
            assert(big_endian(low.take(1).drop_last()) == 0);
            reveal_with_fuel(power, 9);
            lemma_power_grows(256, 1, 8);
        }
        let mut i: usize = 1;
        let short: bool = field.len() < 8;
        while i < source.len()
            invariant
                1 <= i <= source@.len() <= 8,
                low.len() == source@.len(),
                low == source@.update(0, source@[0] & 0x7f),
                value == big_endian(low.take(i as int)),
                2 * value < power(256, i as nat),
                short == (source@.len() < 8),
                short ==> scale == power(256, i as nat),
                power(256, i as nat) <= power(256, 8),
                power(256, 8) == 0x1_0000_0000_0000_0000,
                power(256, 7) == 0x100_0000_0000_0000,
            decreases source@.len() - i,
        {
            proof {
                assert(low.take(i + 1).drop_last() =~= low.take(i as int));
                assert(low.take(i + 1).last() == source@[i as int]);
                assert(power(256, (i + 1) as nat) == 256 * power(256, i as nat));
                lemma_power_grows(256, (i + 1) as nat, 8);
                if short {
                    lemma_power_grows(256, (i + 1) as nat, 7);
                }
            }
            value = value * 256 + source[i] as u64;
            if short {
                scale = scale * 256;
            }
            i = i + 1;
        }
        assert(low.take(low.len() as int) =~= low);
        if short {
            proof {
                lemma_power_grows(256, source@.len(), 7);
            }
            let wide: i64 = scale as i64;
            return Ok(value as i64 - wide);
        }
        return Ok(value as i64);
    }
    match parse_number(field) {
        Ok(value) => if value <= i64::MAX as u64 {
            Ok(value as i64)
        } else {
            Err(Fault::SignedOverflow)
        },
        Err(fault) => Err(fault),
    }
}

/// Reads a decimal text.
pub fn parse_decimal(bytes: &[u8]) -> (value: Result<u64, Fault>)
    ensures
        value == decimal(bytes@),
{
    if bytes.len() == 0 || !only_digits(bytes) {
        return Err(Fault::InvalidDecimal);
    }
    match fold_digits(bytes, 10) {
        Some(value) => Ok(value),
        None => Err(Fault::DecimalOverflow),
    }
}

/// Reads a decimal text with an optional sign.
pub fn parse_signed_decimal(bytes: &[u8]) -> (value: Option<i64>)
    ensures
        value == signed_decimal(bytes@),
{
    let signed: bool = bytes.len() > 0 && (bytes[0] == 43 || bytes[0] == 45);
    let negative: bool = bytes.len() > 0 && bytes[0] == 45;
    let digits = if signed {
        slice_subrange(bytes, 1, bytes.len())
    } else {
        bytes
    };
    assert(digits@ =~= unsigned_part(bytes@));
    if digits.len() == 0 || !only_digits(digits) {
        return None;
    }
    let magnitude: u64 = match fold_digits(digits, 10) {
        Some(magnitude) => magnitude,
        None => {
            return None;
        },
    };
    if !negative {
        if magnitude <= i64::MAX as u64 {
            Some(magnitude as i64)
        } else {
            None
        }
    } else if magnitude <= i64::MAX as u64 {
        Some(-(magnitude as i64))
    } else if magnitude == 0x8000_0000_0000_0000 {
        Some(i64::MIN)
    } else {
        None
    }
}

/// Whether every byte is a decimal digit.
fn only_digits(bytes: &[u8]) -> (yes: bool)
    ensures
        yes == all_digits(bytes@),
{
    let mut i: usize = 0;
    while i < bytes.len()
        invariant
            i <= bytes@.len(),
            forall|j: int| 0 <= j < i ==> is_digit(#[trigger] bytes@[j]),
        decreases bytes@.len() - i,
    {
        if bytes[i] < 48 || bytes[i] > 57 {
            assert(!is_digit(bytes@[i as int]));
            return false;
        }
        i = i + 1;
    }
    true
}

/// A power grows with its exponent.
pub proof fn lemma_power_grows(base: nat, low: nat, high: nat)
    requires
        base >= 1,
        low <= high,
    ensures
        1 <= power(base, low) <= power(base, high),
    decreases high,
{
    if low < high {
        lemma_power_grows(base, low, (high - 1) as nat);
        let p = power(base, (high - 1) as nat);
        assert(base * p >= p) by (nonlinear_arith)
            requires
                base >= 1,
        ;
    } else if low > 0 {
        lemma_power_grows(base, (low - 1) as nat, (low - 1) as nat);
        let p = power(base, (low - 1) as nat);
        assert(base * p >= 1) by (nonlinear_arith)
            requires
                base >= 1,
                p >= 1,
        ;
    }
}

} // verus!

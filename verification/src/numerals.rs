//! Numbers as they are written in archives, and that each is read as itself.

use vstd::prelude::*;

use crate::error::Fault;
use crate::number::{
    all_digits, big_endian, blanks_end, decimal, digits_end, digits_value, field_digits, is_digit,
    last_eight, number, power, signed_decimal, signed_number, unsigned_part,
};

verus! {

/// A number written in a base from two to ten, without leading zeros.
pub open spec fn numeral(n: nat, base: nat) -> Seq<u8>
    decreases n,
{
    if base < 2 || n < base {
        seq![(48 + n) as u8]
    } else {
        proof {
            vstd::arithmetic::div_mod::lemma_div_decreases(n as int, base as int);
        }
        numeral(n / base, base).push((48 + n % base) as u8)
    }
}

/// A number written in decimal.
pub open spec fn decimal_text(n: nat) -> Seq<u8> {
    numeral(n, 10)
}

/// The big-endian bytes of a number in a field of so many bytes.
pub open spec fn bytes_of(n: nat, width: nat) -> Seq<u8>
    decreases width,
{
    if width == 0 {
        Seq::empty()
    } else {
        bytes_of(n / 256, (width - 1) as nat).push((n % 256) as u8)
    }
}

/// Whether a byte string is made of one byte, any number of times.
pub open spec fn all_are(s: Seq<u8>, byte: u8) -> bool {
    forall|i: int| 0 <= i < s.len() ==> #[trigger] s[i] == byte
}

/// Whether a byte string is made of zero bytes and spaces.
pub open spec fn all_blank(s: Seq<u8>) -> bool {
    forall|i: int| 0 <= i < s.len() ==> #[trigger] s[i] == 0 || s[i] == 32
}

/// Whether a byte string does not go on with a decimal digit.
pub open spec fn starts_otherwise(s: Seq<u8>) -> bool {
    s.len() == 0 || s[0] < 48 || s[0] > 57
}

/// The digits of a number write it.
pub proof fn lemma_numeral(n: nat, base: nat)
    requires
        2 <= base <= 10,
    ensures
        numeral(n, base).len() > 0,
        all_digits(numeral(n, base)),
        forall|i: int|
            0 <= i < numeral(n, base).len() ==> 48 <= #[trigger] numeral(n, base)[i] < 48 + base,
        digits_value(numeral(n, base), base) == n,
    decreases n,
{
    let s = numeral(n, base);
    if n < base {
        assert(s.drop_last() =~= Seq::<u8>::empty());
        assert(digits_value(s.drop_last(), base) == 0);
        assert(0 * base == 0);
    } else {
        vstd::arithmetic::div_mod::lemma_fundamental_div_mod(n as int, base as int);
        vstd::arithmetic::div_mod::lemma_mod_bound(n as int, base as int);
        vstd::arithmetic::div_mod::lemma_div_decreases(n as int, base as int);
        lemma_numeral(n / base, base);
        assert(s.drop_last() =~= numeral(n / base, base));
        assert((n / base) * base == base * (n / base)) by (nonlinear_arith);
    }
}

/// Zeros in front of digits do not count.
proof fn lemma_leading_zeros(zeros: Seq<u8>, s: Seq<u8>, base: nat)
    requires
        all_are(zeros, 48),
    ensures
        digits_value(zeros + s, base) == digits_value(s, base),
    decreases zeros.len() + s.len(),
{
    let all = zeros + s;
    if s.len() > 0 {
        assert(all.drop_last() =~= zeros + s.drop_last());
        lemma_leading_zeros(zeros, s.drop_last(), base);
    } else if zeros.len() > 0 {
        assert(all.drop_last() =~= zeros.drop_last() + s);
        assert(all.last() == zeros.last());
        lemma_leading_zeros(zeros.drop_last(), s, base);
        assert(0 * base == 0);
    }
}

/// A number that is written in decimal is read as itself, with or without zeros
/// in front of it, if it fits in 64 bits; a larger one is refused.
pub proof fn law_decimals_are_read(zeros: Seq<u8>, n: nat)
    requires
        all_are(zeros, 48),
    ensures
        decimal(zeros + decimal_text(n)) == if n <= u64::MAX {
            Ok::<u64, Fault>(n as u64)
        } else {
            Err(Fault::DecimalOverflow)
        },
{
    let s = zeros + decimal_text(n);
    lemma_numeral(n, 10);
    lemma_leading_zeros(zeros, decimal_text(n), 10);
    assert forall|i: int| 0 <= i < s.len() implies is_digit(#[trigger] s[i]) by {
        if i < zeros.len() {
            assert(zeros[i] == 48);
        } else {
            assert(is_digit(decimal_text(n)[i - zeros.len()]));
        }
    }
}

/// What is empty or holds anything but decimal digits is no decimal number.
pub proof fn law_other_texts_are_no_decimals(s: Seq<u8>, i: int)
    requires
        s.len() == 0 || (0 <= i < s.len() && !(48 <= s[i] <= 57)),
    ensures
        decimal(s) == Err::<u64, Fault>(Fault::InvalidDecimal),
{
}

/// Every decimal number that is read was written by digits alone, and is the
/// only number that they write.
pub proof fn law_decimals_are_digits(s: Seq<u8>, n: u64)
    requires
        decimal(s) == Ok::<u64, Fault>(n),
    ensures
        s.len() > 0,
        forall|i: int| 0 <= i < s.len() ==> 48 <= #[trigger] s[i] <= 57,
        s.len() > 1 ==> decimal(s.drop_last()) == Ok::<u64, Fault>(n / 10),
        s.last() == 48 + n % 10,
{
    let front = s.drop_last();
    let high = digits_value(front, 10);
    assert forall|i: int| 0 <= i < s.len() implies 48 <= #[trigger] s[i] <= 57 by {
        assert(is_digit(s[i]));
    }
    assert(n == high * 10 + (s.last() - 48));
    assert forall|i: int| 0 <= i < front.len() implies is_digit(#[trigger] front[i]) by {
        assert(is_digit(s[i]));
    }
}

/// A decimal number may have a sign, and is read as itself or as its negative
/// if that fits in 64 bits; otherwise there is no number.
pub proof fn law_signed_decimals_are_read(n: nat)
    ensures
        signed_decimal(decimal_text(n)) == if n <= i64::MAX {
            Some(n as i64)
        } else {
            None
        },
        signed_decimal(seq![43u8] + decimal_text(n)) == signed_decimal(decimal_text(n)),
        signed_decimal(seq![45u8] + decimal_text(n)) == if n <= 0x8000_0000_0000_0000 {
            Some((0 - n) as i64)
        } else {
            None
        },
{
    let s = decimal_text(n);
    lemma_numeral(n, 10);
    assert(is_digit(s[0]));
    assert(unsigned_part(s) == s);
    assert(unsigned_part(seq![43u8] + s) =~= s);
    assert(unsigned_part(seq![45u8] + s) =~= s);
}

/// Blanks end where something else starts.
proof fn lemma_blanks_end_at(s: Seq<u8>, from: int, at: int)
    requires
        0 <= from <= at <= s.len(),
        forall|i: int| from <= i < at ==> #[trigger] s[i] == 0 || s[i] == 32,
        at < s.len() ==> s[at] != 0 && s[at] != 32,
    ensures
        blanks_end(s, from) == at,
    decreases at - from,
{
    if from < at {
        lemma_blanks_end_at(s, from + 1, at);
    }
}

/// Digits end where something else starts.
proof fn lemma_digits_end_at(s: Seq<u8>, from: int, at: int)
    requires
        0 <= from <= at <= s.len(),
        forall|i: int| from <= i < at ==> is_digit(#[trigger] s[i]),
        at < s.len() ==> !is_digit(s[at]),
    ensures
        digits_end(s, from) == at,
    decreases at - from,
{
    if from < at {
        lemma_digits_end_at(s, from + 1, at);
    }
}

/// The digits in a field between blanks and something else are found.
proof fn lemma_field_digits(blanks: Seq<u8>, digits: Seq<u8>, tail: Seq<u8>)
    requires
        all_blank(blanks),
        all_digits(digits),
        digits.len() > 0,
        starts_otherwise(tail),
    ensures
        field_digits(blanks + digits + tail) == digits,
        (blanks + digits + tail)[0] & 0x80 == 0,
{
    let field = blanks + digits + tail;
    let at = blanks.len() as int;
    let end = at + digits.len();
    let head: u8 = field[0];
    assert(is_digit(digits[0]));
    if at > 0 {
        assert(field[0] == blanks[0]);
    } else {
        assert(field[0] == digits[0]);
    }
    assert(head & 0x80 == 0) by (bit_vector)
        requires
            head < 128,
    ;
    assert forall|i: int| 0 <= i < at implies #[trigger] field[i] == 0 || field[i] == 32 by {
        assert(field[i] == blanks[i]);
    }
    assert(field[at] == digits[0]);
    lemma_blanks_end_at(field, 0, at);
    assert forall|i: int| at <= i < end implies is_digit(#[trigger] field[i]) by {
        assert(field[i] == digits[i - at]);
    }
    if end < field.len() {
        assert(field[end] == tail[0]);
    }
    lemma_digits_end_at(field, at, end);
    assert(field_digits(field) =~= digits);
}

/// A number that is written in octal in a header field, after blanks and zeros
/// and before anything that is no digit, is read as itself if it fits in 64
/// bits.
pub proof fn law_octal_fields_are_read(blanks: Seq<u8>, zeros: Seq<u8>, n: nat, tail: Seq<u8>)
    requires
        all_blank(blanks),
        all_are(zeros, 48),
        starts_otherwise(tail),
    ensures
        number(blanks + (zeros + numeral(n, 8)) + tail) == if n <= u64::MAX {
            Ok::<u64, Fault>(n as u64)
        } else {
            Err(Fault::NumericOverflow)
        },
        n <= i64::MAX ==> signed_number(blanks + (zeros + numeral(n, 8)) + tail) == Ok::<
            i64,
            Fault,
        >(n as i64),
{
    let digits = zeros + numeral(n, 8);
    lemma_numeral(n, 8);
    lemma_leading_zeros(zeros, numeral(n, 8), 8);
    assert forall|i: int| 0 <= i < digits.len() implies 48 <= #[trigger] digits[i] <= 55 by {
        if i < zeros.len() {
            assert(zeros[i] == 48);
        } else {
            assert(48 <= numeral(n, 8)[i - zeros.len()] < 56);
        }
    }
    assert(all_digits(digits));
    lemma_field_digits(blanks, digits, tail);
}

/// A header field without digits after its blanks is zero, and one with a digit
/// that is not octal is refused.
pub proof fn law_odd_octal_fields(blanks: Seq<u8>, digits: Seq<u8>, tail: Seq<u8>, i: int)
    requires
        all_blank(blanks),
    ensures
        number(blanks) == Ok::<u64, Fault>(0),
        all_digits(digits) && starts_otherwise(tail) && 0 <= i < digits.len() && digits[i] > 55
            ==> number(blanks + digits + tail) == Err::<u64, Fault>(Fault::InvalidOctal),
{
    lemma_blanks_end_at(blanks, 0, blanks.len() as int);
    assert(field_digits(blanks) =~= Seq::<u8>::empty());
    if blanks.len() > 0 {
        let head: u8 = blanks[0];
        assert(head & 0x80 == 0) by (bit_vector)
            requires
                head < 128,
        ;
    }
    if all_digits(digits) && starts_otherwise(tail) && 0 <= i < digits.len() {
        lemma_field_digits(blanks, digits, tail);
    }
}

/// The bytes of a number hold it.
proof fn lemma_bytes_of(n: nat, width: nat)
    requires
        n < power(256, width),
    ensures
        bytes_of(n, width).len() == width,
        big_endian(bytes_of(n, width)) == n,
    decreases width,
{
    if width > 0 {
        let low = (width - 1) as nat;
        let p = power(256, low);
        assert(n / 256 < p) by (nonlinear_arith)
            requires
                n < 256 * p,
        ;
        lemma_bytes_of(n / 256, low);
        assert(bytes_of(n, width).drop_last() =~= bytes_of(n / 256, low));
    }
}

/// The first byte of a number that is small enough is small.
proof fn lemma_first_byte(n: nat, width: nat, bound: nat)
    requires
        width > 0,
        0 < bound <= 256,
        n < bound * power(256, (width - 1) as nat),
    ensures
        n < power(256, width),
        bytes_of(n, width).len() == width,
        bytes_of(n, width)[0] < bound,
    decreases width,
{
    let low = (width - 1) as nat;
    let p = power(256, low);
    assert(n < 256 * p) by (nonlinear_arith)
        requires
            n < bound * p,
            bound <= 256,
    ;
    lemma_bytes_of(n, width);
    if width > 1 {
        let q = power(256, (low - 1) as nat);
        assert(p == 256 * q);
        assert(n / 256 < bound * q) by (nonlinear_arith)
            requires
                n < bound * p,
                p == 256 * q,
        ;
        lemma_first_byte(n / 256, low, bound);
        assert(bytes_of(n, width)[0] == bytes_of(n / 256, low)[0]);
    } else {
        assert(power(256, 0) == 1);
        assert(bound * p == bound) by (nonlinear_arith)
            requires
                p == 1,
        ;
        assert(bytes_of(n, 1)[0] == n % 256);
    }
}

/// A number that is written as big-endian bytes in a header field, with the top
/// bit of the first byte set, is read as itself if it fits in 64 bits. With the
/// second bit set as well it is negative, and refused where none is allowed.
pub proof fn law_binary_fields_are_read(n: nat, width: nat)
    requires
        width > 0,
        n < 64 * power(256, (width - 1) as nat),
    ensures
        ({
            let bytes = bytes_of(n, width);
            let field = bytes.update(0, (bytes[0] + 128) as u8);
            let minus = bytes.update(0, (bytes[0] + 192) as u8);
            &&& number(field) == if n <= u64::MAX {
                Ok::<u64, Fault>(n as u64)
            } else {
                Err(Fault::NumericOverflow)
            }
            &&& n <= i64::MAX ==> signed_number(field) == Ok::<i64, Fault>(n as i64)
            &&& number(minus) == Err::<u64, Fault>(Fault::NegativeNumber)
        }),
{
    let bytes = bytes_of(n, width);
    lemma_first_byte(n, width, 64);
    lemma_bytes_of(n, width);
    let first: u8 = bytes[0];
    let head: u8 = (first + 128) as u8;
    let deep: u8 = (first + 192) as u8;
    assert(head & 0x80 != 0 && head & 0x40 == 0 && head & 0x3f == first) by (bit_vector)
        requires
            first < 64,
            head == first + 128,
    ;
    assert(deep & 0x80 != 0 && deep & 0x40 != 0) by (bit_vector)
        requires
            first < 64,
            deep == first + 192,
    ;
    assert(bytes.update(0, head).update(0, first) =~= bytes);
}

/// A modification time that is marked as negative is what its last eight bytes
/// hold without their top bit.
pub proof fn law_times_marked_negative(front: Seq<u8>, n: nat, top: bool)
    requires
        front.len() > 0,
        front[0] >= 192,
        n < 0x8000_0000_0000_0000,
    ensures
        ({
            let bytes = bytes_of(n, 8);
            let low = if top {
                bytes.update(0, (bytes[0] + 128) as u8)
            } else {
                bytes
            };
            signed_number(front + low) == Ok::<i64, Fault>(n as i64)
        }),
{
    let bytes = bytes_of(n, 8);
    reveal_with_fuel(power, 9);
    lemma_first_byte(n, 8, 128);
    lemma_bytes_of(n, 8);
    let first: u8 = bytes[0];
    let head: u8 = (first + 128) as u8;
    let mark: u8 = front[0];
    assert(head & 0x7f == first && first & 0x7f == first) by (bit_vector)
        requires
            first < 128,
            head == first + 128,
    ;
    assert(mark & 0x80 != 0 && mark & 0x40 != 0) by (bit_vector)
        requires
            mark >= 192,
    ;
    let low = if top {
        bytes.update(0, head)
    } else {
        bytes
    };
    assert(last_eight(front + low) =~= low);
    assert(low.update(0, low[0] & 0x7f) =~= bytes);
}

} // verus!

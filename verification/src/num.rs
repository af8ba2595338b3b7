//! Numbers as they are written on a command line.

use crate::digits::{digit, digit_value};
use vstd::prelude::*;
use vstd::string::StringSliceAdditionalSpecFns;

verus! {

/// Why a text is not a number.
#[derive(Debug, Clone, Copy, PartialEq, Eq, Structural)]
pub enum NumError {
    /// No character is left behind the prefix.
    Empty,
    /// A character is no digit of the radix, or a sign stands alone.
    InvalidDigit,
    /// The number does not fit in 32 bits.
    Overflow,
}

/// The character `+`.
pub const PLUS: u8 = 0x2b;

/// The radix that the beginning of `text` names: `0x` sixteen, `0b` two,
/// `0o` eight, anything else ten.
pub open spec fn radix_of(text: Seq<u8>) -> u32 {
    if text.len() >= 2 && text[0] == 0x30 && text[1] == 0x78 {
        16
    } else if text.len() >= 2 && text[0] == 0x30 && text[1] == 0x62 {
        2
    } else if text.len() >= 2 && text[0] == 0x30 && text[1] == 0x6f {
        8
    } else {
        10
    }
}

/// The text behind the prefix that names a radix, if it has one.
pub open spec fn without_prefix(text: Seq<u8>) -> Seq<u8> {
    if radix_of(text) == 10 {
        text
    } else {
        text.skip(2)
    }
}

/// The number that `digits` write in `radix`, read from the left: the first
/// character that is no digit of the radix, or the first digit with which
/// the number no longer fits in 32 bits, ends the reading.
pub open spec fn digits_value(digits: Seq<u8>, radix: u32) -> Result<u32, NumError>
    decreases digits.len(),
{
    if digits.len() == 0 {
        Ok(0)
    } else {
        match (digits_value(digits.drop_last(), radix), digit_value(digits.last())) {
            (Err(e), _) => Err(e),
            (Ok(v), Some(d)) => if d >= radix {
                Err(NumError::InvalidDigit)
            } else if v * radix + d > u32::MAX {
                Err(NumError::Overflow)
            } else {
                Ok((v * radix + d) as u32)
            },
            (Ok(_), None) => Err(NumError::InvalidDigit),
        }
    }
}

/// The number that `text` writes in `radix`: digits, with `+` before them
/// or without.
pub open spec fn parse_u32(text: Seq<u8>, radix: u32) -> Result<u32, NumError> {
    if text.len() == 0 {
        Err(NumError::Empty)
    } else if text[0] == PLUS {
        if text.len() == 1 {
            Err(NumError::InvalidDigit)
        } else {
            digits_value(text.skip(1), radix)
        }
    } else {
        digits_value(text, radix)
    }
}

/// The number that `text` writes: in hexadecimal behind `0x`, in binary
/// behind `0b`, in octal behind `0o`, and in decimal without a prefix.
pub open spec fn decode_number(text: Seq<u8>) -> Result<u32, NumError> {
    parse_u32(without_prefix(text), radix_of(text))
}

/// Reads digits of `radix` from `text[from..]`.
fn read_digits(text: &[u8], from: usize, radix: u32) -> (r: Result<u32, NumError>)
    requires
        from <= text@.len(),
        2 <= radix <= 36,
    ensures
        r == digits_value(text@.skip(from as int), radix),
{
    let ghost digits = text@.skip(from as int);
    let n: usize = text.len();
    let mut value: u32 = 0;
    let mut i: usize = from;
    proof {
        assert(digits.take(0) =~= Seq::<u8>::empty());
    }
    while i < n
        invariant
            from <= i <= n,
            n == text@.len(),
            2 <= radix <= 36,
            digits == text@.skip(from as int),
            digits_value(digits.take(i - from), radix) == Ok::<u32, NumError>(value),
        ensures
            i == n,
            digits_value(digits.take(n - from), radix) == Ok::<u32, NumError>(value),
        decreases n - i,
    {
        proof {
            assert(digits.take(i - from + 1).drop_last() =~= digits.take(i - from));
            assert(digits.take(i - from + 1).last() == text@[i as int]);
            lemma_digits_value_stops(digits, i - from + 1, radix);
        }
        let d: u32 = match digit(text[i], radix) {
            Some(d) => d,
            None => {
                return Err(NumError::InvalidDigit);
            },
        };
        assert(value * radix <= 0xFFFF_FFFF * 36) by (nonlinear_arith)
            requires
                value <= 0xFFFF_FFFF,
                radix <= 36,
        ;
        let next: u64 = value as u64 * radix as u64 + d as u64;
        if next > 0xFFFF_FFFF {
            return Err(NumError::Overflow);
        }
        value = next as u32;
        i += 1;
    }
    proof {
        assert(digits.take(n - from) =~= digits);
    }
    Ok(value)
}

/// Where the reading of the first `k` characters fails, the reading of all
/// fails in the same way.
pub proof fn lemma_digits_value_stops(digits: Seq<u8>, k: int, radix: u32)
    requires
        0 <= k <= digits.len(),
    ensures
        digits_value(digits.take(k), radix) is Err ==> digits_value(digits, radix) == digits_value(
            digits.take(k),
            radix,
        ),
    decreases digits.len(),
{
    if k == digits.len() {
        assert(digits.take(k) =~= digits);
    } else {
        lemma_digits_value_stops(digits.drop_last(), k, radix);
        assert(digits.drop_last().take(k) =~= digits.take(k));
    }
}

/// The number that `s` writes: in hexadecimal behind `0x`, in binary behind
/// `0b`, in octal behind `0o`, and in decimal without a prefix.  The digits
/// may have a `+` before them.
pub fn num_decode(s: &str) -> (r: Result<u32, NumError>)
    ensures
        r == decode_number(s.spec_bytes()),
{
    let text: &[u8] = s.as_bytes();
    let n: usize = text.len();
    let (radix, from): (u32, usize) = if n >= 2 && text[0] == 0x30 && text[1] == 0x78 {
        (16, 2)
    } else if n >= 2 && text[0] == 0x30 && text[1] == 0x62 {
        (2, 2)
    } else if n >= 2 && text[0] == 0x30 && text[1] == 0x6f {
        (8, 2)
    } else {
        (10, 0)
    };
    let ghost rest = without_prefix(text@);
    proof {
        assert(rest =~= text@.skip(from as int));
    }
    if from == n {
        return Err(NumError::Empty);
    }
    if text[from] == PLUS {
        if from + 1 == n {
            return Err(NumError::InvalidDigit);
        }
        proof {
            assert(rest.skip(1) =~= text@.skip(from as int + 1));
        }
        read_digits(text, from + 1, radix)
    } else {
        read_digits(text, from, radix)
    }
}

} // verus!

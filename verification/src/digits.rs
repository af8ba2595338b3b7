//! ASCII digits, read and written.

use vstd::prelude::*;

verus! {

/// The value of an ASCII digit or letter as a digit: `0`-`9` count from zero,
/// letters of either case from ten.  Any other byte has none.
pub open spec fn digit_value(c: u8) -> Option<int> {
    if 0x30 <= c <= 0x39 {
        Some(c - 0x30)
    } else if 0x61 <= c <= 0x7a {
        Some(c - 0x61 + 10)
    } else if 0x41 <= c <= 0x5a {
        Some(c - 0x41 + 10)
    } else {
        None
    }
}

/// `c` is a digit of the given radix.
pub open spec fn is_digit(c: u8, radix: int) -> bool {
    digit_value(c) matches Some(d) && d < radix
}

/// `c` is one of `0`-`9`, `a`-`f`, `A`-`F`.
pub open spec fn is_hex_digit(c: u8) -> bool {
    is_digit(c, 16)
}

/// The value of a hexadecimal digit.
pub open spec fn hex_value(c: u8) -> int
    recommends
        is_hex_digit(c),
{
    digit_value(c).unwrap()
}

/// The byte written by the two hexadecimal digits of `line` at `at`, if the
/// line holds two such digits there.
pub open spec fn spec_hex_byte(line: Seq<u8>, at: int) -> Option<u8> {
    if 0 <= at && at + 2 <= line.len() && is_hex_digit(line[at]) && is_hex_digit(line[at + 1]) {
        Some((16 * hex_value(line[at]) + hex_value(line[at + 1])) as u8)
    } else {
        None
    }
}

/// The 16-bit number written by the four hexadecimal digits of `line` at
/// `at`, most significant digit first, if the line holds four such digits
/// there.
pub open spec fn spec_hex_word(line: Seq<u8>, at: int) -> Option<u16> {
    if 0 <= at && at + 4 <= line.len() && is_hex_digit(line[at]) && is_hex_digit(line[at + 1])
        && is_hex_digit(line[at + 2]) && is_hex_digit(line[at + 3]) {
        Some(
            (4096 * hex_value(line[at]) + 256 * hex_value(line[at + 1]) + 16 * hex_value(
                line[at + 2],
            ) + hex_value(line[at + 3])) as u16,
        )
    } else {
        None
    }
}

/// The lower-case hexadecimal digit for a value below sixteen.
pub open spec fn hex_char(v: int) -> u8
    recommends
        0 <= v < 16,
{
    if v < 10 {
        (0x30 + v) as u8
    } else {
        (0x61 + v - 10) as u8
    }
}

/// The upper-case hexadecimal digit for a value below sixteen.
pub open spec fn hex_char_upper(v: int) -> u8
    recommends
        0 <= v < 16,
{
    if v < 10 {
        (0x30 + v) as u8
    } else {
        (0x41 + v - 10) as u8
    }
}

/// The two upper-case hexadecimal digits of a byte.
pub open spec fn upper2(b: u8) -> Seq<u8> {
    seq![hex_char_upper(b as int / 16), hex_char_upper(b as int % 16)]
}

/// The four upper-case hexadecimal digits of a 16-bit number, most
/// significant digit first.
pub open spec fn upper4(x: u16) -> Seq<u8> {
    upper2((x / 0x100) as u8) + upper2((x % 0x100) as u8)
}

/// The two lower-case hexadecimal digits of a byte.
pub open spec fn hex2(b: u8) -> Seq<u8> {
    seq![hex_char(b as int / 16), hex_char(b as int % 16)]
}

/// The four lower-case hexadecimal digits of a 16-bit number, most
/// significant digit first.
pub open spec fn hex4(x: u16) -> Seq<u8> {
    Seq::new(4, |i: int| hex_char((x as int / pow16(3 - i)) % 16))
}

/// The eight lower-case hexadecimal digits of a 32-bit number, most
/// significant digit first.
pub open spec fn hex8(x: u32) -> Seq<u8> {
    Seq::new(8, |i: int| hex_char((x as int / pow16(7 - i)) % 16))
}

/// Sixteen to the power `n`, for the eight digit positions of a 32-bit number.
pub open spec fn pow16(n: int) -> int {
    if n <= 0 {
        1
    } else if n == 1 {
        0x10
    } else if n == 2 {
        0x100
    } else if n == 3 {
        0x1000
    } else if n == 4 {
        0x1_0000
    } else if n == 5 {
        0x10_0000
    } else if n == 6 {
        0x100_0000
    } else {
        0x1000_0000
    }
}

/// The value of `c` as a digit of `radix`.
pub fn digit(c: u8, radix: u32) -> (r: Option<u32>)
    requires
        2 <= radix <= 36,
    ensures
        r is Some <==> is_digit(c, radix as int),
        r matches Some(d) ==> digit_value(c) == Some(d as int),
{
    let v: u32 = if 0x30 <= c && c <= 0x39 {
        (c - 0x30) as u32
    } else if 0x61 <= c && c <= 0x7a {
        (c - 0x61) as u32 + 10
    } else if 0x41 <= c && c <= 0x5a {
        (c - 0x41) as u32 + 10
    } else {
        return None;
    };
    if v < radix {
        Some(v)
    } else {
        None
    }
}

/// Reads two hexadecimal digits at `at` as a byte.
pub fn hex_byte(line: &[u8], at: usize) -> (r: Option<u8>)
    ensures
        r == spec_hex_byte(line@, at as int),
{
    if line.len() < 2 || at > line.len() - 2 {
        return None;
    }
    match (digit(line[at], 16), digit(line[at + 1], 16)) {
        (Some(hi), Some(lo)) => Some((16 * hi + lo) as u8),
        _ => None,
    }
}

/// Reads four hexadecimal digits at `at` as a 16-bit number.
pub fn hex_word(line: &[u8], at: usize) -> (r: Option<u16>)
    ensures
        r == spec_hex_word(line@, at as int),
{
    if line.len() < 4 || at > line.len() - 4 {
        return None;
    }
    match (
        digit(line[at], 16),
        digit(line[at + 1], 16),
        digit(line[at + 2], 16),
        digit(line[at + 3], 16),
    ) {
        (Some(a), Some(b), Some(c), Some(d)) => Some((4096 * a + 256 * b + 16 * c + d) as u16),
        _ => None,
    }
}

/// Appends the two lower-case hexadecimal digits of `b` to `out`.
pub fn push_hex2(out: &mut Vec<u8>, b: u8)
    ensures
        final(out)@ == old(out)@ + hex2(b),
{
    out.push(hex_digit_char(b / 16));
    out.push(hex_digit_char(b % 16));
    assert(final(out)@ =~= old(out)@ + hex2(b));
}

/// Appends the two upper-case hexadecimal digits of `b` to `out`.
pub fn push_upper2(out: &mut Vec<u8>, b: u8)
    ensures
        final(out)@ == old(out)@ + upper2(b),
{
    out.push(hex_digit_char_upper(b / 16));
    out.push(hex_digit_char_upper(b % 16));
    assert(final(out)@ =~= old(out)@ + upper2(b));
}

/// Appends the four upper-case hexadecimal digits of `x` to `out`.
pub fn push_upper4(out: &mut Vec<u8>, x: u16)
    ensures
        final(out)@ == old(out)@ + upper4(x),
{
    push_upper2(out, (x / 0x100) as u8);
    push_upper2(out, (x % 0x100) as u8);
    assert(final(out)@ =~= old(out)@ + upper4(x));
}

/// Appends the four lower-case hexadecimal digits of `x` to `out`.
pub fn push_hex4(out: &mut Vec<u8>, x: u16)
    ensures
        final(out)@ == old(out)@ + hex4(x),
{
    out.push(hex_digit_char(((x / 0x1000) % 16) as u8));
    out.push(hex_digit_char(((x / 0x100) % 16) as u8));
    out.push(hex_digit_char(((x / 0x10) % 16) as u8));
    out.push(hex_digit_char((x % 16) as u8));
    assert(final(out)@ =~= old(out)@ + hex4(x));
}

/// Appends the eight lower-case hexadecimal digits of `x` to `out`.
pub fn push_hex8(out: &mut Vec<u8>, x: u32)
    ensures
        final(out)@ == old(out)@ + hex8(x),
{
    out.push(hex_digit_char(((x / 0x1000_0000) % 16) as u8));
    out.push(hex_digit_char(((x / 0x100_0000) % 16) as u8));
    out.push(hex_digit_char(((x / 0x10_0000) % 16) as u8));
    out.push(hex_digit_char(((x / 0x1_0000) % 16) as u8));
    out.push(hex_digit_char(((x / 0x1000) % 16) as u8));
    out.push(hex_digit_char(((x / 0x100) % 16) as u8));
    out.push(hex_digit_char(((x / 0x10) % 16) as u8));
    out.push(hex_digit_char((x % 16) as u8));
    assert(final(out)@ =~= old(out)@ + hex8(x));
}

/// The upper-case hexadecimal digit for `v`.
pub fn hex_digit_char_upper(v: u8) -> (c: u8)
    requires
        v < 16,
    ensures
        c == hex_char_upper(v as int),
        is_hex_digit(c),
        hex_value(c) == v,
{
    if v < 10 {
        0x30 + v
    } else {
        0x41 + (v - 10)
    }
}

/// The lower-case hexadecimal digit for `v`.
pub fn hex_digit_char(v: u8) -> (c: u8)
    requires
        v < 16,
    ensures
        c == hex_char(v as int),
        is_hex_digit(c),
        hex_value(c) == v,
{
    if v < 10 {
        0x30 + v
    } else {
        0x61 + (v - 10)
    }
}

} // verus!

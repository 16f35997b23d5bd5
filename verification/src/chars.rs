//! Byte classes used by the report grammar, with executable tests that are
//! proved equal to their specification counterparts.

use vstd::prelude::*;

verus! {

/// The class of a byte, as the report grammar distinguishes them.
pub enum ByteClass {
    /// The separator byte `=`.
    Eq,
    /// A decimal digit.
    Digit,
    /// A line-ending byte, `\r` or `\n`.
    CrLf,
    /// Anything except a line-ending byte.
    NotCrLf,
    /// ASCII whitespace.
    Space,
    /// A token byte: letter, digit, `-` or `_`.
    Word,
    /// A hexadecimal digit.
    Hex,
}

pub open spec fn is_eq_byte(b: u8) -> bool {
    b == 61
}

pub open spec fn is_digit_byte(b: u8) -> bool {
    48 <= b <= 57
}

pub open spec fn is_crlf_byte(b: u8) -> bool {
    b == 13 || b == 10
}

pub open spec fn is_space_byte(b: u8) -> bool {
    b == 32 || b == 9 || b == 10 || b == 11 || b == 12 || b == 13
}

pub open spec fn is_word_byte(b: u8) -> bool {
    ||| is_digit_byte(b)
    ||| 65 <= b <= 90
    ||| 97 <= b <= 122
    ||| b == 45
    ||| b == 95
}

pub open spec fn is_hex_byte(b: u8) -> bool {
    ||| is_digit_byte(b)
    ||| 65 <= b <= 70
    ||| 97 <= b <= 102
}

/// Whether `b` belongs to the class `c`.
pub open spec fn in_class(c: ByteClass, b: u8) -> bool {
    match c {
        ByteClass::Eq => is_eq_byte(b),
        ByteClass::Digit => is_digit_byte(b),
        ByteClass::CrLf => is_crlf_byte(b),
        ByteClass::NotCrLf => !is_crlf_byte(b),
        ByteClass::Space => is_space_byte(b),
        ByteClass::Word => is_word_byte(b),
        ByteClass::Hex => is_hex_byte(b),
    }
}

pub fn byte_in_class(c: &ByteClass, b: u8) -> (r: bool)
    ensures
        r == in_class(*c, b),
{
    match c {
        ByteClass::Eq => b == 61,
        ByteClass::Digit => 48 <= b && b <= 57,
        ByteClass::CrLf => b == 13 || b == 10,
        ByteClass::NotCrLf => !(b == 13 || b == 10),
        ByteClass::Space => b == 32 || b == 9 || b == 10 || b == 11 || b == 12 || b == 13,
        ByteClass::Word => (48 <= b && b <= 57) || (65 <= b && b <= 90) || (97 <= b && b <= 122)
            || b == 45 || b == 95,
        ByteClass::Hex => (48 <= b && b <= 57) || (65 <= b && b <= 70) || (97 <= b && b <= 102),
    }
}

/// Numeric value of a decimal or hexadecimal digit byte.
pub open spec fn digit_value(b: u8) -> int {
    if is_digit_byte(b) {
        b - 48
    } else if 65 <= b <= 70 {
        b - 65 + 10
    } else if 97 <= b <= 102 {
        b - 97 + 10
    } else {
        0
    }
}

pub fn byte_digit_value(b: u8) -> (r: u8)
    requires
        is_hex_byte(b),
    ensures
        r as int == digit_value(b),
        r < 16,
{
    if 48 <= b && b <= 57 {
        b - 48
    } else if 65 <= b && b <= 70 {
        b - 65 + 10
    } else {
        b - 97 + 10
    }
}

} // verus!

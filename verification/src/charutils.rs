//! Byte classes of the JSON grammar.

use vstd::prelude::*;

verus! {

/// Space, tab, line feed or carriage return.
pub open spec fn is_whitespace(b: u8) -> bool {
    b == 0x20 || b == 0x09 || b == 0x0a || b == 0x0d
}

/// One of the six operator characters `{ } [ ] : ,`.
pub open spec fn is_operator(b: u8) -> bool {
    b == 0x7b || b == 0x7d || b == 0x5b || b == 0x5d || b == 0x3a || b == 0x2c
}

/// A decimal digit.
pub open spec fn is_digit(b: u8) -> bool {
    0x30 <= b <= 0x39
}

/// The value of a hex digit, if `b` is one.
pub open spec fn hex_value(b: u8) -> Option<u32> {
    if 0x30 <= b <= 0x39 {
        Some((b - 0x30) as u32)
    } else if 0x41 <= b <= 0x46 {
        Some((b - 0x41 + 10) as u32)
    } else if 0x61 <= b <= 0x66 {
        Some((b - 0x61 + 10) as u32)
    } else {
        None
    }
}

pub fn byte_is_whitespace(b: u8) -> (r: bool)
    ensures
        r == is_whitespace(b),
{
    b == 0x20 || b == 0x09 || b == 0x0a || b == 0x0d
}

pub fn byte_is_operator(b: u8) -> (r: bool)
    ensures
        r == is_operator(b),
{
    b == 0x7b || b == 0x7d || b == 0x5b || b == 0x5d || b == 0x3a || b == 0x2c
}

pub fn byte_is_digit(b: u8) -> (r: bool)
    ensures
        r == is_digit(b),
{
    0x30 <= b && b <= 0x39
}

pub fn byte_hex_value(b: u8) -> (r: Option<u32>)
    ensures
        r == hex_value(b),
{
    if 0x30 <= b && b <= 0x39 {
        Some((b - 0x30) as u32)
    } else if 0x41 <= b && b <= 0x46 {
        Some((b - 0x41 + 10) as u32)
    } else if 0x61 <= b && b <= 0x66 {
        Some((b - 0x61 + 10) as u32)
    } else {
        None
    }
}

/// The classes that a byte may be of, by its low nibble: one bit per
/// class. Together with the table of the high nibble it tells the
/// operators (the low three bits) and the whitespace (the next two).
pub const LOW_NIBBLE_CLASSES: [u8; 16] = [16, 0, 0, 0, 0, 0, 0, 0, 0, 8, 12, 1, 2, 9, 0, 0];

/// The classes that a byte may be of, by its high nibble.
pub const HIGH_NIBBLE_CLASSES: [u8; 16] = [8, 0, 18, 4, 0, 1, 0, 1, 0, 0, 0, 3, 2, 1, 0, 0];

pub const OPERATOR_CLASSES: u8 = 0x07;

pub const WHITESPACE_CLASSES: u8 = 0x18;

/// The entry of the low-nibble table for `n`.
pub open spec fn low_nibble_classes(n: u8) -> u8 {
    if n == 0 {
        16
    } else if n == 9 {
        8
    } else if n == 10 {
        12
    } else if n == 11 {
        1
    } else if n == 12 {
        2
    } else if n == 13 {
        9
    } else {
        0
    }
}

/// The entry of the high-nibble table for `n`.
pub open spec fn high_nibble_classes(n: u8) -> u8 {
    if n == 0 {
        8
    } else if n == 2 {
        18
    } else if n == 3 {
        4
    } else if n == 5 {
        1
    } else if n == 7 {
        1
    } else if n == 11 {
        3
    } else if n == 12 {
        2
    } else if n == 13 {
        1
    } else {
        0
    }
}

/// The classes of `b`: those that both of its nibbles allow. A byte
/// beyond ASCII is of no class.
pub open spec fn classes_of(b: u8) -> u8 {
    (if b >= 0x80 { 0u8 } else { low_nibble_classes(b & 0x0f) }) & high_nibble_classes(b >> 4)
}

/// The two tables tell the operators and the whitespace apart from
/// all other bytes.
pub proof fn lemma_classes_of(b: u8)
    by (bit_vector)
    ensures
        (classes_of(b) & 0x07 != 0) == is_operator(b),
        (classes_of(b) & 0x18 != 0) == is_whitespace(b),
        b & 0x0f < 16,
        b >> 4 < 16,
{
}

proof fn lemma_tables(n: u8)
    requires
        n < 16,
    ensures
        LOW_NIBBLE_CLASSES@[n as int] == low_nibble_classes(n),
        HIGH_NIBBLE_CLASSES@[n as int] == high_nibble_classes(n),
{
}

/// The classes of `b`, by a lookup of each nibble.
pub fn byte_classes(b: u8) -> (r: u8)
    ensures
        r == classes_of(b),
        (r & OPERATOR_CLASSES != 0) == is_operator(b),
        (r & WHITESPACE_CLASSES != 0) == is_whitespace(b),
{
    proof {
        lemma_classes_of(b);
        lemma_tables(b & 0x0f);
        lemma_tables(b >> 4);
    }
    let low: u8 = if b >= 0x80 { 0 } else { LOW_NIBBLE_CLASSES[(b & 0x0f) as usize] };
    let high: u8 = HIGH_NIBBLE_CLASSES[(b >> 4) as usize];
    low & high
}

} // verus!

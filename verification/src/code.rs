//! The length-code model: which of the eight byte widths a value takes.

use vstd::prelude::*;
use vstd::arithmetic::power::pow;

verus! {

/// The first value that does not fit in `code + 1` bytes: `256^(code + 1)`.
pub open spec fn limit(code: int) -> int {
    if code <= 0 {
        0x100
    } else if code == 1 {
        0x1_0000
    } else if code == 2 {
        0x100_0000
    } else if code == 3 {
        0x1_0000_0000
    } else if code == 4 {
        0x100_0000_0000
    } else if code == 5 {
        0x1_0000_0000_0000
    } else if code == 6 {
        0x100_0000_0000_0000
    } else {
        0x1_0000_0000_0000_0000
    }
}

/// The limits are the powers of 256.
pub proof fn lemma_limit_is_power(code: int)
    requires
        0 <= code <= 7,
    ensures
        limit(code) == pow(256, (code + 1) as nat),
{
    reveal_with_fuel(pow, 9);
}

/// Whether `value` can be written in `code + 1` bytes.
pub open spec fn fits(value: u64, code: int) -> bool {
    (value as int) < limit(code)
}

/// The length code of a value: the least class in `0..=7` that fits it.
pub open spec fn code_of(value: u64) -> u8 {
    if value < 0x100 {
        0
    } else if value < 0x1_0000 {
        1
    } else if value < 0x100_0000 {
        2
    } else if value < 0x1_0000_0000 {
        3
    } else if value < 0x100_0000_0000 {
        4
    } else if value < 0x1_0000_0000_0000 {
        5
    } else if value < 0x100_0000_0000_0000 {
        6
    } else {
        7
    }
}

/// The number of data bytes a length code stands for.
pub open spec fn width_of_code(code: u8) -> nat {
    (code + 1) as nat
}

/// The number of data bytes a value takes.
pub open spec fn width_of(value: u64) -> nat {
    width_of_code(code_of(value))
}

/// Returns the length code of `value`: the least `c` in `0..=7` with
/// `value < 256^(c + 1)`.
pub fn classify(value: u64) -> (code: u8)
    ensures
        code == code_of(value),
        code <= 7,
        fits(value, code as int),
        forall|c: int| 0 <= c < code ==> !fits(value, c),
{
    if value < 0x100 {
        0
    } else if value < 0x1_0000 {
        1
    } else if value < 0x100_0000 {
        2
    } else if value < 0x1_0000_0000 {
        3
    } else if value < 0x100_0000_0000 {
        4
    } else if value < 0x1_0000_0000_0000 {
        5
    } else if value < 0x100_0000_0000_0000 {
        6
    } else {
        7
    }
}

/// Returns the number of data bytes that `code` stands for.
pub fn byte_width(code: u8) -> (width: usize)
    ensures
        width == width_of_code(code),
{
    code as usize + 1
}

/// The code of a value is minimal: the value fits its class and no smaller
/// class.
pub proof fn lemma_code_minimal(value: u64)
    ensures
        code_of(value) <= 7,
        fits(value, code_of(value) as int),
        forall|c: int| 0 <= c < code_of(value) ==> !fits(value, c),
{
}

} // verus!

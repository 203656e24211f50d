//! The Base64 data alphabet and the value of each of its symbols.

use vstd::prelude::*;

verus! {

/// Whether `c` is a Base64 data symbol: `A-Z`, `a-z`, `0-9`, `+` or `/`.
/// The padding symbol `=` is not a data symbol.
pub open spec fn is_b64(c: char) -> bool {
    ('A' <= c && c <= 'Z') || ('a' <= c && c <= 'z') || ('0' <= c && c <= '9') || c == '+' || c
        == '/'
}

/// The six-bit value that the standard alphabet gives a data symbol.
pub open spec fn sextet(c: char) -> int {
    if 'A' <= c && c <= 'Z' {
        (c as u32) - ('A' as u32)
    } else if 'a' <= c && c <= 'z' {
        (c as u32) - ('a' as u32) + 26
    } else if '0' <= c && c <= '9' {
        (c as u32) - ('0' as u32) + 52
    } else if c == '+' {
        62
    } else {
        63
    }
}

/// Tells whether `c` is a Base64 data symbol.
pub fn is_base64_char(c: char) -> (r: bool)
    ensures
        r == is_b64(c),
{
    ('A' <= c && c <= 'Z') || ('a' <= c && c <= 'z') || ('0' <= c && c <= '9') || c == '+' || c
        == '/'
}

} // verus!

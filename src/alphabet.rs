//! The forward and inverse alphabet tables of standard Base64.
use vstd::prelude::*;

verus! {

/// ASCII code of the padding character `=`.
pub const PAD: u8 = 61;

/// Marker of the inverse table for a code that is not in the alphabet.
pub const INVALID: u8 = 255;

/// ASCII code of the symbol that stands for the 6-bit value `v`.
pub open spec fn symbol_code(v: u8) -> u8
    recommends
        v < 64,
{
    if v < 26 {
        (v + 65) as u8  // 'A'..='Z'
    } else if v < 52 {
        (v + 71) as u8  // 'a'..='z'
    } else if v < 62 {
        (v - 4) as u8  // '0'..='9'
    } else if v == 62 {
        43  // '+'
    } else {
        47  // '/'
    }
}

/// The symbol that stands for the 6-bit value `v`.
pub open spec fn symbol(v: u8) -> char
    recommends
        v < 64,
{
    symbol_code(v) as char
}

/// The 6-bit value of the ASCII code `c`, or `INVALID` where `c` is not in
/// the alphabet (the padding character included).
pub open spec fn sextet(c: u8) -> u8 {
    if 65 <= c <= 90 {
        (c - 65) as u8
    } else if 97 <= c <= 122 {
        (c - 71) as u8
    } else if 48 <= c <= 57 {
        (c + 4) as u8
    } else if c == 43 {
        62
    } else if c == 47 {
        63
    } else {
        INVALID
    }
}

/// Forward table: the symbol for a 6-bit value.
pub fn symbol_of(v: u8) -> (c: char)
    requires
        v < 64,
    ensures
        c == symbol(v),
{
    let code: u8 = if v < 26 {
        v + 65
    } else if v < 52 {
        v + 71
    } else if v < 62 {
        v - 4
    } else if v == 62 {
        43
    } else {
        47
    };
    code as char
}

/// Inverse table: the 6-bit value of an ASCII code, or `INVALID`.
pub fn sextet_of(c: u8) -> (v: u8)
    ensures
        v == sextet(c),
{
    if 65 <= c && c <= 90 {
        c - 65
    } else if 97 <= c && c <= 122 {
        c - 71
    } else if 48 <= c && c <= 57 {
        c + 4
    } else if c == 43 {
        62
    } else if c == 47 {
        63
    } else {
        INVALID
    }
}

/// Every symbol is an ASCII character other than `=`, and the inverse table
/// takes it back to its value.
pub proof fn lemma_symbol_inverse(v: u8)
    requires
        v < 64,
    ensures
        symbol_code(v) < 128,
        symbol_code(v) != PAD,
        symbol(v) as u8 == symbol_code(v),
        symbol(v) != '=',
        sextet(symbol_code(v)) == v,
{
}

} // verus!

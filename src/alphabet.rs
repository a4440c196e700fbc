//! The 64-symbol alphabet and its inverse.
use vstd::prelude::*;

verus! {

/// The symbol that stands for the six-bit value `v`:
/// `A`-`Z` for 0-25, `a`-`z` for 26-51, `0`-`9` for 52-61, `+` for 62, `/` for 63.
pub open spec fn symbol_of(v: u8) -> char
    recommends
        v < 64,
{
    if v < 26 {
        (v + 65) as char
    } else if v < 52 {
        (v + 71) as char
    } else if v < 62 {
        (v - 4) as char
    } else if v == 62 {
        '+'
    } else {
        '/'
    }
}

/// Whether `c` is one of the 64 symbols (padding `=` is not).
pub open spec fn is_symbol(c: char) -> bool {
    ('A' <= c && c <= 'Z') || ('a' <= c && c <= 'z') || ('0' <= c && c <= '9') || c == '+' || c
        == '/'
}

/// The six-bit value of a symbol; any other character, `=` among them, counts as 0.
pub open spec fn value_of(c: char) -> u8 {
    if 'A' <= c && c <= 'Z' {
        (c as u32 - 65) as u8
    } else if 'a' <= c && c <= 'z' {
        (c as u32 - 71) as u8
    } else if '0' <= c && c <= '9' {
        (c as u32 + 4) as u8
    } else if c == '+' {
        62
    } else if c == '/' {
        63
    } else {
        0
    }
}

/// Every six-bit value has a symbol, and the symbol reads back as that value.
pub proof fn lemma_symbol_value(v: u8)
    requires
        v < 64,
    ensures
        is_symbol(symbol_of(v)),
        value_of(symbol_of(v)) == v,
{
}

/// Every symbol stands for a six-bit value.
pub proof fn lemma_value_bound(c: char)
    ensures
        value_of(c) < 64,
{
}

/// Looks up the symbol of a six-bit value.
pub fn symbol(v: u8) -> (c: char)
    requires
        v < 64,
    ensures
        c == symbol_of(v),
{
    if v < 26 {
        (v + 65) as char
    } else if v < 52 {
        (v + 71) as char
    } else if v < 62 {
        (v - 4) as char
    } else if v == 62 {
        '+'
    } else {
        '/'
    }
}

/// Looks up the value of a character: `None` where it is no symbol.
pub fn symbol_value(c: char) -> (r: Option<u8>)
    ensures
        r == (if is_symbol(c) {
            Some(value_of(c))
        } else {
            None::<u8>
        }),
{
    if 'A' <= c && c <= 'Z' {
        Some((c as u32 - 65) as u8)
    } else if 'a' <= c && c <= 'z' {
        Some((c as u32 - 71) as u8)
    } else if '0' <= c && c <= '9' {
        Some((c as u32 + 4) as u8)
    } else if c == '+' {
        Some(62)
    } else if c == '/' {
        Some(63)
    } else {
        None
    }
}

} // verus!

//! Buffer lengths for encoding and decoding, with overflow checks on `i32`.
use vstd::prelude::*;

verus! {

/// The largest length that the codec takes: the largest `i32`.
pub const INT_MAX: usize = 2147483647;

/// Bytes needed to hold the encoding of `n` bytes: four for each group of
/// three, four for a final partial group, and one for a terminating slot.
pub open spec fn encoded_capacity(n: nat) -> nat {
    4 * (n / 3) + (if n % 3 != 0 {
        4nat
    } else {
        0nat
    }) + 1
}

/// Bytes that the decoding of `n` characters can take at most: three for
/// each group of four, and three for a final partial group.
pub open spec fn decoded_capacity(n: nat) -> nat {
    3 * (n / 4) + (if n % 4 != 0 {
        3nat
    } else {
        0nat
    })
}

/// Computes `encoded_capacity(src_len)`, or `None` where it exceeds `i32::MAX`.
pub fn encoded_len(src_len: i32) -> (r: Option<i32>)
    requires
        src_len >= 0,
    ensures
        r == (if encoded_capacity(src_len as nat) <= i32::MAX {
            Some(encoded_capacity(src_len as nat) as i32)
        } else {
            None::<i32>
        }),
{
    let mut len: i32 = match (src_len / 3).checked_mul(4) {
        Some(l) => l,
        None => {
            return None;
        },
    };
    if src_len % 3 != 0 {
        len = match len.checked_add(4) {
            Some(l) => l,
            None => {
                return None;
            },
        };
    }
    len = match len.checked_add(1) {
        Some(l) => l,
        None => {
            return None;
        },
    };
    Some(len)
}

/// Computes `decoded_capacity(src_len)`, or `None` where it exceeds `i32::MAX`.
pub fn decoded_len(src_len: i32) -> (r: Option<i32>)
    requires
        src_len >= 0,
    ensures
        r == (if decoded_capacity(src_len as nat) <= i32::MAX {
            Some(decoded_capacity(src_len as nat) as i32)
        } else {
            None::<i32>
        }),
{
    let mut len: i32 = match (src_len / 4).checked_mul(3) {
        Some(l) => l,
        None => {
            return None;
        },
    };
    if src_len % 4 != 0 {
        len = match len.checked_add(3) {
            Some(l) => l,
            None => {
                return None;
            },
        };
    }
    Some(len)
}

} // verus!

//! Encoding bytes as base64 text.
use vstd::prelude::*;

use crate::alphabet::{symbol, symbol_of};
use crate::lengths::{encoded_capacity, encoded_len, INT_MAX};

verus! {

/// The four symbols of the group of bytes `a`, `b`, `c`: their 24 bits read
/// six at a time, from the high bit of `a` down.
pub open spec fn quad(a: u8, b: u8, c: u8) -> Seq<char> {
    seq![
        symbol_of(a >> 2),
        symbol_of(((a & 3) << 4) | (b >> 4)),
        symbol_of(((b & 15) << 2) | (c >> 6)),
        symbol_of(c & 63),
    ]
}

/// The symbols of the first `k` whole groups of three bytes of `b`.
pub open spec fn encode_groups(b: Seq<u8>, k: nat) -> Seq<char>
    decreases k,
{
    if k == 0 {
        seq![]
    } else {
        let j = 3 * (k - 1) as int;
        encode_groups(b, (k - 1) as nat) + quad(b[j], b[j + 1], b[j + 2])
    }
}

/// The symbols of the final partial group of `b`: the group filled with zero
/// bytes, cut after the symbols that its bytes reach, and padded with `=`.
pub open spec fn encode_tail(b: Seq<u8>) -> Seq<char> {
    let j = 3 * (b.len() / 3) as int;
    if b.len() % 3 == 1 {
        quad(b[j], 0, 0).take(2) + seq!['=', '=']
    } else if b.len() % 3 == 2 {
        quad(b[j], b[j + 1], 0).take(3) + seq!['=']
    } else {
        seq![]
    }
}

/// The base64 text of `b`.
pub open spec fn encode_spec(b: Seq<u8>) -> Seq<char> {
    encode_groups(b, b.len() / 3) + encode_tail(b)
}

/// Whether `n` bytes can be encoded: `n` and the encoded capacity fit in an `i32`.
pub open spec fn encodable(n: nat) -> bool {
    n <= INT_MAX && encoded_capacity(n) <= INT_MAX
}

/// Relies on `String::with_capacity`: a new, empty string.
#[verifier::external_body]
fn text_with_capacity(capacity: usize) -> (r: String)
    ensures
        r@ == Seq::<char>::empty(),
{
    String::with_capacity(capacity)
}

/// Relies on `String::push`: appends `c` at the end.
#[verifier::external_body]
fn push_char(s: &mut String, c: char)
    ensures
        final(s)@ == old(s)@.push(c),
{
    s.push(c)
}

/// The four symbols of the group `a`, `b`, `c`, appended to `out`; only the
/// first `keep` of them are appended.
fn push_quad(out: &mut String, a: u8, b: u8, c: u8, keep: usize)
    requires
        keep <= 4,
    ensures
        final(out)@ == old(out)@ + quad(a, b, c).take(keep as int),
{
    let s0 = a >> 2;
    let s1 = ((a & 3) << 4) | (b >> 4);
    let s2 = ((b & 15) << 2) | (c >> 6);
    let s3 = c & 63;
    assert(s0 < 64 && s1 < 64 && s2 < 64 && s3 < 64) by (bit_vector)
        requires
            s0 == a >> 2,
            s1 == ((a & 3) << 4) | (b >> 4),
            s2 == ((b & 15) << 2) | (c >> 6),
            s3 == c & 63,
    ;
    let ghost q = quad(a, b, c);
    let ghost start = out@;
    if keep > 0 {
        push_char(out, symbol(s0));
    }
    if keep > 1 {
        push_char(out, symbol(s1));
    }
    if keep > 2 {
        push_char(out, symbol(s2));
    }
    if keep > 3 {
        push_char(out, symbol(s3));
    }
    assert(out@ =~= start + q.take(keep as int));
}

/// Encodes `src` as base64 text with the standard alphabet and `=` padding.
/// The text takes one character less than `encoded_capacity`, which also
/// counts a terminating slot.
pub fn encode_block(src: &[u8]) -> (r: String)
    requires
        encodable(src@.len()),
    ensures
        r@ == encode_spec(src@),
        r@.len() + 1 == encoded_capacity(src@.len()),
{
    let n = src.len();
    let capacity = encoded_len(n as i32).unwrap();
    let mut out = text_with_capacity(capacity as usize);
    let mut i: usize = 0;
    while i + 3 <= n
        invariant
            n == src@.len(),
            n <= INT_MAX,
            i % 3 == 0,
            i <= n,
            out@ == encode_groups(src@, (i / 3) as nat),
        decreases n - i,
    {
        push_quad(&mut out, src[i], src[i + 1], src[i + 2], 4);
        assert(quad(src@[i as int], src@[i + 1], src@[i + 2]).take(4) =~= quad(
            src@[i as int],
            src@[i + 1],
            src@[i + 2],
        ));
        i = i + 3;
    }
    assert(i / 3 == n / 3);
    if n - i == 1 {
        push_quad(&mut out, src[i], 0, 0, 2);
        push_char(&mut out, '=');
        push_char(&mut out, '=');
    } else if n - i == 2 {
        push_quad(&mut out, src[i], src[i + 1], 0, 3);
        push_char(&mut out, '=');
    }
    proof {
        lemma_encode_len(src@);
    }
    assert(out@ =~= encode_spec(src@));
    out
}

/// The length of the encoding of `b`: four symbols for each group of three
/// bytes, a final partial group counting as whole.
pub(crate) proof fn lemma_encode_len(b: Seq<u8>)
    ensures
        encode_spec(b).len() == 4 * (b.len() / 3) + (if b.len() % 3 != 0 {
            4nat
        } else {
            0nat
        }),
{
    lemma_encode_groups_len(b, b.len() / 3);
}

proof fn lemma_encode_groups_len(b: Seq<u8>, k: nat)
    ensures
        encode_groups(b, k).len() == 4 * k,
    decreases k,
{
    if k > 0 {
        lemma_encode_groups_len(b, (k - 1) as nat);
    }
}

} // verus!

//! Decoding base64 text into bytes.
use vstd::prelude::*;
use vstd::utf8::encode_utf8;

use crate::alphabet::{is_symbol, lemma_value_bound, symbol_value, value_of};
use crate::lengths::{decoded_capacity, decoded_len, INT_MAX};

verus! {

/// Whether `c` is white space by the Unicode `White_Space` property, the
/// class that `str::trim` removes.
pub open spec fn is_ws(c: char) -> bool {
    c == '\t' || c == '\n' || c == '\u{0B}' || c == '\u{0C}' || c == '\r' || c == ' ' || c
        == '\u{85}' || c == '\u{A0}' || c == '\u{1680}' || ('\u{2000}' <= c && c <= '\u{200A}')
        || c == '\u{2028}' || c == '\u{2029}' || c == '\u{202F}' || c == '\u{205F}' || c
        == '\u{3000}'
}

/// `s` without its leading white space.
pub open spec fn trim_start(s: Seq<char>) -> Seq<char>
    decreases s.len(),
{
    if s.len() > 0 && is_ws(s[0]) {
        trim_start(s.drop_first())
    } else {
        s
    }
}

/// `s` without its trailing white space.
pub open spec fn trim_end(s: Seq<char>) -> Seq<char>
    decreases s.len(),
{
    if s.len() > 0 && is_ws(s.last()) {
        trim_end(s.drop_last())
    } else {
        s
    }
}

/// `s` without its leading and trailing white space.
pub open spec fn trim(s: Seq<char>) -> Seq<char> {
    trim_end(trim_start(s))
}

/// The failure to decode text that is no base64: a length that is not a
/// multiple of four, a character outside the alphabet, or `=` that is not
/// trailing padding.
#[derive(Debug, Clone, Copy, PartialEq, Eq, Structural)]
pub struct DecodeError;

/// The three bytes of the group of symbols `c0` to `c3`: their four six-bit
/// values read as 24 bits, eight at a time. Padding `=` counts as 0.
pub open spec fn triple(c0: char, c1: char, c2: char, c3: char) -> Seq<u8> {
    let v0 = value_of(c0);
    let v1 = value_of(c1);
    let v2 = value_of(c2);
    let v3 = value_of(c3);
    seq![
        ((v0 << 2) | (v1 >> 4)) as u8,
        (((v1 & 15) << 4) | (v2 >> 2)) as u8,
        (((v2 & 3) << 6) | v3) as u8,
    ]
}

/// The bytes of the first `k` groups of four characters of `t`, each group
/// taken as whole.
pub open spec fn decode_groups(t: Seq<char>, k: nat) -> Seq<u8>
    decreases k,
{
    if k == 0 {
        seq![]
    } else {
        let j = 4 * (k - 1) as int;
        decode_groups(t, (k - 1) as nat) + triple(t[j], t[j + 1], t[j + 2], t[j + 3])
    }
}

/// The number of padding characters that end `t`: 2 for `==`, 1 for `=`.
pub open spec fn pad_len(t: Seq<char>) -> nat {
    if t.len() >= 2 && t[t.len() - 2] == '=' && t.last() == '=' {
        2
    } else if t.len() >= 1 && t.last() == '=' {
        1
    } else {
        0
    }
}

/// Whether `t` is base64 text: whole groups of four, all symbols but the
/// trailing padding.
pub open spec fn well_formed(t: Seq<char>) -> bool {
    &&& t.len() % 4 == 0
    &&& forall|i: int| 0 <= i < t.len() - pad_len(t) ==> is_symbol(#[trigger] t[i])
}

/// The bytes of the base64 text `t`: the bytes of its groups, less one for
/// each padding character.
pub open spec fn decode_spec(t: Seq<char>) -> Seq<u8> {
    decode_groups(t, t.len() / 4).take(3 * (t.len() / 4) - pad_len(t))
}

/// What decoding `s` gives: the bytes of `s` without its surrounding white
/// space, or `None` where that is no base64 text.
pub open spec fn decode_result(s: Seq<char>) -> Option<Seq<u8>> {
    if well_formed(trim(s)) {
        Some(decode_spec(trim(s)))
    } else {
        None
    }
}

/// Tests `is_ws`.
pub fn is_white_space(c: char) -> (r: bool)
    ensures
        r == is_ws(c),
{
    c == '\t' || c == '\n' || c == '\u{0B}' || c == '\u{0C}' || c == '\r' || c == ' ' || c
        == '\u{85}' || c == '\u{A0}' || c == '\u{1680}' || ('\u{2000}' <= c && c <= '\u{200A}')
        || c == '\u{2028}' || c == '\u{2029}' || c == '\u{202F}' || c == '\u{205F}' || c
        == '\u{3000}'
}

/// The characters of `s`.
fn chars_of(s: &str) -> (r: Vec<char>)
    ensures
        r@ == s@,
{
    let mut v: Vec<char> = Vec::new();
    for c in it: s.chars()
        invariant
            v@ == it.seq().take(it.index()),
    {
        v.push(c);
    }
    v
}

/// The bounds of `trim(chars@)` in `chars`.
fn trim_bounds(chars: &Vec<char>) -> (r: (usize, usize))
    ensures
        r.0 <= r.1 <= chars@.len(),
        chars@.subrange(r.0 as int, r.1 as int) == trim(chars@),
{
    let n = chars.len();
    let mut lo: usize = 0;
    assert(chars@.subrange(0, n as int) =~= chars@);
    while lo < n && is_white_space(chars[lo])
        invariant
            lo <= n == chars@.len(),
            trim_start(chars@) == trim_start(chars@.subrange(lo as int, n as int)),
        decreases n - lo,
    {
        assert(chars@.subrange(lo as int, n as int).drop_first() =~= chars@.subrange(
            lo + 1,
            n as int,
        ));
        lo = lo + 1;
    }
    let ghost start = chars@.subrange(lo as int, n as int);
    assert(trim_start(chars@) == start);
    let mut hi: usize = n;
    while hi > lo && is_white_space(chars[hi - 1])
        invariant
            lo <= hi <= n == chars@.len(),
            start == chars@.subrange(lo as int, n as int),
            trim_end(start) == trim_end(chars@.subrange(lo as int, hi as int)),
        decreases hi,
    {
        assert(chars@.subrange(lo as int, hi as int).drop_last() =~= chars@.subrange(
            lo as int,
            hi - 1,
        ));
        hi = hi - 1;
    }
    (lo, hi)
}

/// The value of a character of a group: a symbol's value, 0 for `=` where
/// `in_pad`, and `None` for anything else.
fn group_value(c: char, in_pad: bool) -> (r: Option<u8>)
    ensures
        r is Some <==> (is_symbol(c) || (in_pad && c == '=')),
        r matches Some(v) ==> v == value_of(c) && v < 64,
{
    proof {
        lemma_value_bound(c);
    }
    match symbol_value(c) {
        Some(v) => Some(v),
        None => {
            if in_pad && c == '=' {
                Some(0)
            } else {
                None
            }
        },
    }
}

/// Appends the three bytes of the group with values `v0` to `v3`.
fn push_triple(out: &mut Vec<u8>, v0: u8, v1: u8, v2: u8, v3: u8)
    ensures
        final(out)@ == old(out)@ + seq![
            ((v0 << 2) | (v1 >> 4)) as u8,
            (((v1 & 15) << 4) | (v2 >> 2)) as u8,
            (((v2 & 3) << 6) | v3) as u8,
        ],
{
    let ghost start = out@;
    out.push((v0 << 2) | (v1 >> 4));
    out.push(((v1 & 15) << 4) | (v2 >> 2));
    out.push(((v2 & 3) << 6) | v3);
    assert(out@ =~= start + seq![
        ((v0 << 2) | (v1 >> 4)) as u8,
        (((v1 & 15) << 4) | (v2 >> 2)) as u8,
        (((v2 & 3) << 6) | v3) as u8,
    ]);
}

/// Decodes the groups of `chars[lo..hi]` into `out`, padding counted as
/// zero bits; fails where that range is no base64 text.
fn decode_into(chars: &Vec<char>, lo: usize, hi: usize, out: &mut Vec<u8>) -> (r: Result<
    (),
    DecodeError,
>)
    requires
        lo <= hi <= chars@.len(),
        old(out)@.len() == 0,
    ensures
        r is Ok <==> well_formed(chars@.subrange(lo as int, hi as int)),
        r is Ok ==> final(out)@ == decode_groups(
            chars@.subrange(lo as int, hi as int),
            ((hi - lo) / 4) as nat,
        ),
{
    let ghost t = chars@.subrange(lo as int, hi as int);
    let len = hi - lo;
    if len % 4 != 0 {
        return Err(DecodeError);
    }
    let pad: usize = if len >= 2 && chars[hi - 2] == '=' && chars[hi - 1] == '=' {
        2
    } else if len >= 1 && chars[hi - 1] == '=' {
        1
    } else {
        0
    };
    assert(pad == pad_len(t));
    assert(forall|j: int| len - pad <= j < len ==> #[trigger] t[j] == '=');
    let body = len - pad;
    let mut i: usize = 0;
    while i < len
        invariant
            lo <= hi <= chars@.len(),
            t == chars@.subrange(lo as int, hi as int),
            len == hi - lo,
            len % 4 == 0,
            pad == pad_len(t),
            body == len - pad,
            i % 4 == 0,
            i <= len,
            out@ == decode_groups(t, (i / 4) as nat),
            forall|j: int| 0 <= j < i && j < body ==> is_symbol(#[trigger] t[j]),
            forall|j: int| body <= j < len ==> #[trigger] t[j] == '=',
        decreases len - i,
    {
        let v0 = match group_value(chars[lo + i], i >= body) {
            Some(v) => v,
            None => {
                assert(t[i as int] == chars@[lo + i]);
                return Err(DecodeError);
            },
        };
        let v1 = match group_value(chars[lo + i + 1], i + 1 >= body) {
            Some(v) => v,
            None => {
                assert(t[i + 1] == chars@[lo + i + 1]);
                return Err(DecodeError);
            },
        };
        let v2 = match group_value(chars[lo + i + 2], i + 2 >= body) {
            Some(v) => v,
            None => {
                assert(t[i + 2] == chars@[lo + i + 2]);
                return Err(DecodeError);
            },
        };
        let v3 = match group_value(chars[lo + i + 3], i + 3 >= body) {
            Some(v) => v,
            None => {
                assert(t[i + 3] == chars@[lo + i + 3]);
                return Err(DecodeError);
            },
        };
        push_triple(out, v0, v1, v2, v3);
        i = i + 4;
    }
    Ok(())
}

/// The length in UTF-8 bytes of `s` without its surrounding white space.
pub open spec fn trimmed_len(s: Seq<char>) -> nat {
    encode_utf8(trim(s)).len()
}

/// Dropping the last character does not lengthen the UTF-8 encoding.
proof fn lemma_utf8_drop_last(s: Seq<char>)
    requires
        s.len() > 0,
    ensures
        encode_utf8(s.drop_last()).len() <= encode_utf8(s).len(),
    decreases s.len(),
{
    if s.len() > 1 {
        assert(s.drop_last().drop_first() =~= s.drop_first().drop_last());
        lemma_utf8_drop_last(s.drop_first());
    }
}

proof fn lemma_utf8_trim_start(s: Seq<char>)
    ensures
        encode_utf8(trim_start(s)).len() <= encode_utf8(s).len(),
    decreases s.len(),
{
    if s.len() > 0 && is_ws(s[0]) {
        lemma_utf8_trim_start(s.drop_first());
    }
}

proof fn lemma_utf8_trim_end(s: Seq<char>)
    ensures
        encode_utf8(trim_end(s)).len() <= encode_utf8(s).len(),
    decreases s.len(),
{
    if s.len() > 0 && is_ws(s.last()) {
        lemma_utf8_drop_last(s);
        lemma_utf8_trim_end(s.drop_last());
    }
}

/// Trimming does not lengthen a text: a caller that finds
/// `src.as_bytes().len() <= INT_MAX` meets the bound of `decode_block`.
pub proof fn lemma_trimmed_len_bound(s: Seq<char>)
    ensures
        trimmed_len(s) <= encode_utf8(s).len(),
{
    lemma_utf8_trim_start(s);
    lemma_utf8_trim_end(trim_start(s));
}

/// Every character takes at least one byte in UTF-8.
proof fn lemma_utf8_len(s: Seq<char>)
    ensures
        s.len() <= encode_utf8(s).len(),
    decreases s.len(),
{
    if s.len() > 0 {
        lemma_utf8_len(s.drop_first());
    }
}

/// Decodes the base64 text `src`, less its leading and trailing white space,
/// into bytes. Fails with `DecodeError` where the trimmed text is no base64.
pub fn decode_block(src: &str) -> (r: Result<Vec<u8>, DecodeError>)
    requires
        trimmed_len(src@) <= INT_MAX,
    ensures
        match r {
            Ok(v) => decode_result(src@) == Some(v@),
            Err(_) => decode_result(src@) is None,
        },
{
    let chars = chars_of(src);
    let (lo, hi) = trim_bounds(&chars);
    let ghost t = chars@.subrange(lo as int, hi as int);
    let len = hi - lo;
    proof {
        lemma_utf8_len(t);
        assert(decoded_capacity(len as nat) <= i32::MAX) by (nonlinear_arith)
            requires
                len <= INT_MAX,
        ;
    }
    let capacity = decoded_len(len as i32).unwrap();
    let mut out: Vec<u8> = Vec::with_capacity(capacity as usize);
    match decode_into(&chars, lo, hi, &mut out) {
        Ok(()) => {},
        Err(e) => {
            return Err(e);
        },
    }
    proof {
        lemma_decode_groups_len(t, (len / 4) as nat);
    }
    if len >= 1 && chars[hi - 1] == '=' {
        out.pop();
        if len >= 2 && chars[hi - 2] == '=' {
            out.pop();
        }
    }
    assert(out@ =~= decode_spec(t));
    Ok(out)
}

proof fn lemma_decode_groups_len(t: Seq<char>, k: nat)
    ensures
        decode_groups(t, k).len() == 3 * k,
    decreases k,
{
    if k > 0 {
        lemma_decode_groups_len(t, (k - 1) as nat);
    }
}

} // verus!

//! Laws that relate encoding and decoding.
use vstd::prelude::*;

use crate::alphabet::{is_symbol, lemma_symbol_value, symbol_of, value_of};
use crate::decode::{
    decode_groups, decode_result, decode_spec, is_ws, pad_len, trim, trim_end, trim_start, triple,
    well_formed,
};
use crate::encode::{encode_groups, encode_spec, encode_tail, lemma_encode_len, quad};

verus! {

/// The bits of a group of three bytes survive their split into four six-bit
/// values and the join back.
proof fn lemma_group_bits(a: u8, b: u8, c: u8)
    ensures
        (a >> 2) < 64,
        (((a & 3) << 4) | (b >> 4)) < 64,
        (((b & 15) << 2) | (c >> 6)) < 64,
        (c & 63) < 64,
        (((a >> 2) << 2) | ((((a & 3) << 4) | (b >> 4)) >> 4)) == a,
        ((((((a & 3) << 4) | (b >> 4)) & 15) << 4) | ((((b & 15) << 2) | (c >> 6)) >> 2)) == b,
        ((((((b & 15) << 2) | (c >> 6)) & 3) << 6) | (c & 63)) == c,
{
    assert((a >> 2) < 64) by (bit_vector);
    assert((((a & 3) << 4) | (b >> 4)) < 64) by (bit_vector);
    assert((((b & 15) << 2) | (c >> 6)) < 64) by (bit_vector);
    assert((c & 63) < 64) by (bit_vector);
    assert((((a >> 2) << 2) | ((((a & 3) << 4) | (b >> 4)) >> 4)) == a) by (bit_vector);
    assert(((((((a & 3) << 4) | (b >> 4)) & 15) << 4) | ((((b & 15) << 2) | (c >> 6)) >> 2))
        == b) by (bit_vector);
    assert(((((((b & 15) << 2) | (c >> 6)) & 3) << 6) | (c & 63)) == c) by (bit_vector);
}

/// The symbols of a group are symbols, and read back as the group's bytes;
/// with the last one or two symbols read as padding, the first two or the
/// first byte still come back.
proof fn lemma_quad(a: u8, b: u8, c: u8)
    ensures
        forall|i: int| 0 <= i < 4 ==> is_symbol(#[trigger] quad(a, b, c)[i]),
        triple(quad(a, b, c)[0], quad(a, b, c)[1], quad(a, b, c)[2], quad(a, b, c)[3]) == seq![
            a,
            b,
            c,
        ],
        triple(quad(a, b, c)[0], quad(a, b, c)[1], quad(a, b, c)[2], '=').take(2) == seq![a, b],
        triple(quad(a, b, c)[0], quad(a, b, c)[1], '=', '=').take(1) == seq![a],
{
    lemma_group_bits(a, b, c);
    lemma_symbol_value(a >> 2);
    lemma_symbol_value(((a & 3) << 4) | (b >> 4));
    lemma_symbol_value(((b & 15) << 2) | (c >> 6));
    lemma_symbol_value(c & 63);
    let q = quad(a, b, c);
    assert(is_symbol(q[0]) && is_symbol(q[1]) && is_symbol(q[2]) && is_symbol(q[3]));
    assert(triple(q[0], q[1], q[2], q[3]) =~= seq![a, b, c]);
    assert(triple(q[0], q[1], q[2], '=').take(2) =~= seq![a, b]);
    assert(triple(q[0], q[1], '=', '=').take(1) =~= seq![a]);
}

/// The whole groups of an encoding hold symbols only.
proof fn lemma_groups_symbols(b: Seq<u8>, k: nat)
    requires
        3 * k <= b.len(),
    ensures
        encode_groups(b, k).len() == 4 * k,
        forall|i: int| 0 <= i < 4 * k ==> is_symbol(#[trigger] encode_groups(b, k)[i]),
    decreases k,
{
    if k > 0 {
        let j = 3 * (k - 1) as int;
        lemma_groups_symbols(b, (k - 1) as nat);
        lemma_quad(b[j], b[j + 1], b[j + 2]);
        let prev = encode_groups(b, (k - 1) as nat);
        let q = quad(b[j], b[j + 1], b[j + 2]);
        assert forall|i: int| 0 <= i < 4 * k implies is_symbol(
            #[trigger] encode_groups(b, k)[i],
        ) by {
            if i >= 4 * (k - 1) {
                assert(encode_groups(b, k)[i] == q[i - 4 * (k - 1)]);
            } else {
                assert(encode_groups(b, k)[i] == prev[i]);
            }
        }
    }
}

/// Decoding the first `k` groups of any text that starts with the first `k`
/// encoded groups of `b` gives back the first `3 * k` bytes of `b`.
proof fn lemma_decode_encode_groups(b: Seq<u8>, k: nat, rest: Seq<char>)
    requires
        3 * k <= b.len(),
    ensures
        decode_groups(encode_groups(b, k) + rest, k) == b.take(3 * k as int),
    decreases k,
{
    if k > 0 {
        let j = 3 * (k - 1) as int;
        let q = quad(b[j], b[j + 1], b[j + 2]);
        let prev = encode_groups(b, (k - 1) as nat);
        lemma_groups_symbols(b, (k - 1) as nat);
        lemma_decode_encode_groups(b, (k - 1) as nat, q + rest);
        assert(encode_groups(b, k) + rest =~= prev + (q + rest));
        let t = encode_groups(b, k) + rest;
        let m = 4 * (k - 1) as int;
        assert(t[m] == q[0] && t[m + 1] == q[1] && t[m + 2] == q[2] && t[m + 3] == q[3]);
        lemma_quad(b[j], b[j + 1], b[j + 2]);
        assert(b.take(3 * k as int) =~= b.take(j) + seq![b[j], b[j + 1], b[j + 2]]);
    }
}

/// An encoding: its characters, where its padding starts, and that it holds
/// no white space.
proof fn lemma_encoding_shape(b: Seq<u8>)
    ensures
        encode_spec(b).len() % 4 == 0,
        pad_len(encode_spec(b)) == (if b.len() % 3 == 0 {
            0int
        } else {
            3 - b.len() % 3
        }),
        well_formed(encode_spec(b)),
        forall|i: int| 0 <= i < encode_spec(b).len() ==> !is_ws(#[trigger] encode_spec(b)[i]),
{
    let n = b.len();
    let k = n / 3;
    let e = encode_spec(b);
    let g = encode_groups(b, k);
    let j = 3 * k as int;
    lemma_groups_symbols(b, k);
    lemma_encode_len(b);
    if n % 3 == 1 {
        lemma_quad(b[j], 0, 0);
    } else if n % 3 == 2 {
        lemma_quad(b[j], b[j + 1], 0);
    }
    let tail = encode_tail(b);
    assert forall|i: int| 0 <= i < e.len() implies (is_symbol(#[trigger] e[i]) || e[i] == '=') by {
        if i < g.len() {
            assert(e[i] == g[i]);
        } else {
            assert(e[i] == tail[i - g.len()]);
        }
    }
    if n % 3 == 0 {
        if n > 0 {
            assert(e.last() == g[g.len() - 1]);
        }
    } else if n % 3 == 2 {
        assert(e[e.len() - 2] == tail[2]);
    }
    assert forall|i: int| 0 <= i < e.len() - pad_len(e) implies is_symbol(#[trigger] e[i]) by {
        if i < g.len() {
            assert(e[i] == g[i]);
        } else {
            assert(e[i] == tail[i - g.len()]);
        }
    }
}

/// Text whose first character is no white space has no leading white space.
proof fn lemma_trim_start_stops(s: Seq<char>)
    requires
        s.len() > 0 ==> !is_ws(s[0]),
    ensures
        trim_start(s) == s,
{
}

/// Text whose last character is no white space has no trailing white space.
proof fn lemma_trim_end_stops(s: Seq<char>)
    requires
        s.len() > 0 ==> !is_ws(s.last()),
    ensures
        trim_end(s) == s,
{
}

/// Decoding an encoding gives back the bytes.
pub proof fn lemma_round_trip(b: Seq<u8>)
    ensures
        decode_result(encode_spec(b)) == Some(b),
{
    let n = b.len();
    let k = n / 3;
    let e = encode_spec(b);
    let j = 3 * k as int;
    lemma_encoding_shape(b);
    lemma_trim_start_stops(e);
    lemma_trim_end_stops(e);
    assert(trim(e) == e);
    lemma_encode_len(b);
    lemma_groups_symbols(b, k);
    let tail = encode_tail(b);
    lemma_decode_encode_groups(b, k, tail);
    if n % 3 == 0 {
        assert(tail =~= Seq::<char>::empty());
        assert(e =~= encode_groups(b, k) + tail);
        assert(decode_spec(e) =~= b);
    } else {
        let g = encode_groups(b, k);
        assert(e.len() / 4 == k + 1);
        assert(e =~= g + tail);
        let m = 4 * k as int;
        assert(e[m] == tail[0] && e[m + 1] == tail[1] && e[m + 2] == tail[2] && e[m + 3]
            == tail[3]);
        assert(decode_groups(e, k + 1) == decode_groups(e, k) + triple(
            e[m],
            e[m + 1],
            e[m + 2],
            e[m + 3],
        ));
        if n % 3 == 1 {
            lemma_quad(b[j], 0, 0);
            assert(b =~= b.take(j) + seq![b[j]]);
        } else {
            lemma_quad(b[j], b[j + 1], 0);
            assert(b =~= b.take(j) + seq![b[j], b[j + 1]]);
        }
        assert(decode_spec(e) =~= b);
    }
}

/// The length of an encoding: 0 for no bytes, else four characters for each
/// group of three bytes, the last group rounded up.
pub proof fn lemma_encoded_length(b: Seq<u8>)
    ensures
        encode_spec(b).len() == (if b.len() == 0 {
            0
        } else {
            4 * ((b.len() + 2) / 3)
        }),
{
    lemma_encode_len(b);
}

/// An encoding with a space before it and a line break after it decodes to
/// the bytes.
pub proof fn lemma_round_trip_spaced(b: Seq<u8>)
    ensures
        decode_result(seq![' '] + encode_spec(b) + seq!['\n']) == Some(b),
{
    let e = encode_spec(b);
    let s = seq![' '] + e + seq!['\n'];
    lemma_encoding_shape(b);
    assert(s.drop_first() =~= e + seq!['\n']);
    if e.len() > 0 {
        assert((e + seq!['\n'])[0] == e[0]);
        lemma_trim_start_stops(e + seq!['\n']);
    } else {
        assert((e + seq!['\n']).drop_first() =~= e);
    }
    assert((e + seq!['\n']).drop_last() =~= e);
    lemma_trim_end_stops(e);
    if e.len() > 0 {
        assert(trim(s) == e);
    } else {
        let nl = e + seq!['\n'];
        assert(trim_start(nl) == trim_start(nl.drop_first()));
        assert(trim_start(nl.drop_first()) == nl.drop_first());
        assert(trim(s) =~= e);
    }
    lemma_round_trip(b);
}

/// Text whose trimmed length is no multiple of four does not decode.
pub proof fn lemma_rejects_partial_group(s: Seq<char>)
    requires
        trim(s).len() % 4 != 0,
    ensures
        decode_result(s) is None,
{
}

} // verus!

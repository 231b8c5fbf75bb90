//! Percent-encoding of link components through the `percent-encoding` crate,
//! with the encoding stated exactly and the decoding stated exactly wherever
//! the decoded bytes are well-formed UTF-8.
use vstd::prelude::*;
use vstd::utf8::*;

use crate::text::digit_char;

use percent_encoding::{percent_decode_str, utf8_percent_encode, NON_ALPHANUMERIC};

verus! {

broadcast use vstd::utf8::group_utf8_lib;

/// ASCII letter or digit (the bytes `NON_ALPHANUMERIC` leaves alone).
pub open spec fn is_alnum_byte(b: u8) -> bool {
    (48 <= b <= 57) || (65 <= b <= 90) || (97 <= b <= 122)
}

/// ASCII letter or digit.
pub open spec fn is_alnum_char(c: char) -> bool {
    ('0' <= c <= '9') || ('A' <= c <= 'Z') || ('a' <= c <= 'z')
}

/// Upper-case hexadecimal digit for `d < 16`.
pub open spec fn hex_upper(d: nat) -> char {
    if d < 10 {
        digit_char(d)
    } else {
        ((d + 55) as u32) as char
    }
}

/// Encoding of one byte: itself when it is an ASCII letter or digit,
/// otherwise `%` and two upper-case hexadecimal digits.
pub open spec fn encode_byte(b: u8) -> Seq<char> {
    if is_alnum_byte(b) {
        seq![(b as u32) as char]
    } else {
        seq!['%', hex_upper((b / 16) as nat), hex_upper((b % 16) as nat)]
    }
}

/// Encoding of a byte sequence, byte by byte.
pub open spec fn encode_bytes(bs: Seq<u8>) -> Seq<char>
    decreases bs.len(),
{
    if bs.len() == 0 {
        seq![]
    } else {
        encode_byte(bs[0]) + encode_bytes(bs.drop_first())
    }
}

/// `utf8_percent_encode(s, NON_ALPHANUMERIC)`: the UTF-8 bytes of `s`,
/// each encoded by `encode_byte`.
pub open spec fn percent_encoded(s: Seq<char>) -> Seq<char> {
    encode_bytes(encode_utf8(s))
}

/// Value of a hexadecimal digit byte, as `char::to_digit(16)` reads it.
pub open spec fn hex_value(b: u8) -> Option<nat> {
    if 48 <= b <= 57 {
        Some((b - 48) as nat)
    } else if 65 <= b <= 70 {
        Some((b - 55) as nat)
    } else if 97 <= b <= 102 {
        Some((b - 87) as nat)
    } else {
        None
    }
}

/// Percent-decoding of bytes: every `%` followed by two hexadecimal digits
/// becomes the byte they denote; every other byte stays.
pub open spec fn decode_bytes(bs: Seq<u8>) -> Seq<u8>
    decreases bs.len(),
{
    if bs.len() == 0 {
        seq![]
    } else if bs[0] == 37 && bs.len() >= 3 && hex_value(bs[1]) is Some && hex_value(
        bs[2],
    ) is Some {
        seq![(hex_value(bs[1]).unwrap() * 16 + hex_value(bs[2]).unwrap()) as u8] + decode_bytes(
            bs.skip(3),
        )
    } else {
        seq![bs[0]] + decode_bytes(bs.drop_first())
    }
}

/// Name for what `percent_decode_str(s).decode_utf8_lossy()` returns when the
/// percent-decoded bytes of `s` are not well-formed UTF-8 (the crate then
/// substitutes U+FFFD for the ill-formed parts).
pub uninterp spec fn lossy_percent_decoded(s: Seq<char>) -> Seq<char>;

/// `percent_decode_str(s).decode_utf8_lossy()`.
pub open spec fn percent_decoded(s: Seq<char>) -> Seq<char> {
    let bytes = decode_bytes(encode_utf8(s));
    if valid_utf8(bytes) {
        decode_utf8(bytes)
    } else {
        lossy_percent_decoded(s)
    }
}

/// Calls `percent_encoding::utf8_percent_encode(s, NON_ALPHANUMERIC)` and
/// renders it with `to_string`. Claimed: every UTF-8 byte of `s` that is not
/// an ASCII letter or digit becomes `%XX` with upper-case hex digits, the
/// others stay.
#[verifier::external_body]
pub(crate) fn encode(s: &str) -> (r: String)
    ensures
        r@ == percent_encoded(s@),
{
    utf8_percent_encode(s, NON_ALPHANUMERIC).to_string()
}

/// Calls `percent_encoding::percent_decode_str(s).decode_utf8_lossy()`.
/// Claimed: `%XX` sequences are decoded to bytes and, when the resulting
/// bytes are well-formed UTF-8, the result is their text. For ill-formed
/// bytes the result is only named, except that it is not empty: each
/// ill-formed part becomes U+FFFD. A non-empty text decodes to at least one
/// byte, hence to a non-empty result.
#[verifier::external_body]
pub(crate) fn decode(s: &str) -> (r: String)
    ensures
        valid_utf8(decode_bytes(encode_utf8(s@))) ==> r@ == decode_utf8(
            decode_bytes(encode_utf8(s@)),
        ),
        !valid_utf8(decode_bytes(encode_utf8(s@))) ==> r@ == lossy_percent_decoded(s@),
        s@.len() > 0 ==> r@.len() > 0,
{
    percent_decode_str(s).decode_utf8_lossy().into_owned()
}

/// Characters an encoded string may hold: ASCII letters, digits and `%`.
pub open spec fn is_encoded_char(c: char) -> bool {
    is_alnum_char(c) || c == '%'
}

/// Bytes of the encoding of `bs` (it is ASCII).
pub open spec fn encode_bytes_raw(bs: Seq<u8>) -> Seq<u8>
    decreases bs.len(),
{
    if bs.len() == 0 {
        seq![]
    } else {
        encode_byte_raw(bs[0]) + encode_bytes_raw(bs.drop_first())
    }
}

/// Bytes of `encode_byte(b)`.
pub open spec fn encode_byte_raw(b: u8) -> Seq<u8> {
    if is_alnum_byte(b) {
        seq![b]
    } else {
        seq![37u8, hex_upper_byte((b / 16) as nat), hex_upper_byte((b % 16) as nat)]
    }
}

/// Byte of `hex_upper(d)`.
pub open spec fn hex_upper_byte(d: nat) -> u8 {
    if d < 10 {
        (d + 48) as u8
    } else {
        (d + 55) as u8
    }
}

proof fn lemma_encode_utf8_concat(a: Seq<char>, b: Seq<char>)
    ensures
        encode_utf8(a + b) == encode_utf8(a) + encode_utf8(b),
    decreases a.len(),
{
    if a.len() == 0 {
        assert(a + b =~= b);
    } else {
        assert((a + b).drop_first() =~= a.drop_first() + b);
        assert((a + b)[0] == a[0]);
        lemma_encode_utf8_concat(a.drop_first(), b);
    }
}

proof fn lemma_encode_utf8_single(c: char)
    ensures
        encode_utf8(seq![c]) == encode_scalar(c as u32),
{
    let s = seq![c];
    assert(s.drop_first() =~= Seq::<char>::empty());
    reveal_with_fuel(encode_utf8, 2);
    assert(encode_scalar(c as u32) + Seq::<u8>::empty() =~= encode_scalar(c as u32));
}

proof fn lemma_encode_utf8_ascii_char(c: char)
    requires
        (c as u32) < 128,
    ensures
        encode_utf8(seq![c]) == seq![(c as u32) as u8],
{
    lemma_encode_utf8_single(c);
    let u = c as u32;
    assert(leading_byte_width_1(u) == u as u8) by (bit_vector)
        requires
            u < 128,
    ;
}

proof fn lemma_hex_upper(d: nat)
    requires
        d < 16,
    ensures
        (hex_upper(d) as u32) < 128,
        (hex_upper(d) as u32) as u8 == hex_upper_byte(d),
        is_alnum_char(hex_upper(d)),
        hex_value(hex_upper_byte(d)) == Some(d),
{
}

proof fn lemma_encode_byte(b: u8)
    ensures
        encode_utf8(encode_byte(b)) == encode_byte_raw(b),
        forall|i: int| 0 <= i < encode_byte(b).len() ==> is_encoded_char(#[trigger] encode_byte(b)[i]),
        encode_byte(b).len() > 0,
{
    if is_alnum_byte(b) {
        let c = (b as u32) as char;
        lemma_encode_utf8_ascii_char(c);
    } else {
        let h = hex_upper((b / 16) as nat);
        let l = hex_upper((b % 16) as nat);
        lemma_hex_upper((b / 16) as nat);
        lemma_hex_upper((b % 16) as nat);
        lemma_encode_utf8_ascii_char('%');
        lemma_encode_utf8_ascii_char(h);
        lemma_encode_utf8_ascii_char(l);
        assert(encode_byte(b) =~= seq!['%'] + seq![h] + seq![l]);
        lemma_encode_utf8_concat(seq!['%'] + seq![h], seq![l]);
        lemma_encode_utf8_concat(seq!['%'], seq![h]);
        assert(encode_byte_raw(b) =~= seq![37u8] + seq![hex_upper_byte((b / 16) as nat)] + seq![
            hex_upper_byte((b % 16) as nat),
        ]);
    }
}

/// The encoding holds only ASCII letters, digits and `%`, and its UTF-8
/// bytes are `encode_bytes_raw`.
pub proof fn lemma_encode_bytes(bs: Seq<u8>)
    ensures
        encode_utf8(encode_bytes(bs)) == encode_bytes_raw(bs),
        forall|i: int|
            0 <= i < encode_bytes(bs).len() ==> is_encoded_char(#[trigger] encode_bytes(bs)[i]),
    decreases bs.len(),
{
    if bs.len() > 0 {
        lemma_encode_bytes(bs.drop_first());
        lemma_encode_byte(bs[0]);
        let a = encode_byte(bs[0]);
        let r = encode_bytes(bs.drop_first());
        lemma_encode_utf8_concat(a, r);
        assert forall|i: int| 0 <= i < (a + r).len() implies is_encoded_char(#[trigger] (a + r)[i]) by {
            if i >= a.len() {
                assert((a + r)[i] == r[i - a.len()]);
            }
        }
    }
}

proof fn lemma_decode_encoded_raw(bs: Seq<u8>)
    ensures
        decode_bytes(encode_bytes_raw(bs)) == bs,
    decreases bs.len(),
{
    if bs.len() > 0 {
        let b = bs[0];
        let rest = encode_bytes_raw(bs.drop_first());
        lemma_decode_encoded_raw(bs.drop_first());
        let all = encode_byte_raw(b) + rest;
        if is_alnum_byte(b) {
            assert(all[0] == b);
            assert(all.drop_first() =~= rest);
            if b == 37 {
                assert(false);
            }
        } else {
            lemma_hex_upper((b / 16) as nat);
            lemma_hex_upper((b % 16) as nat);
            assert(all[0] == 37u8);
            assert(all[1] == hex_upper_byte((b / 16) as nat));
            assert(all[2] == hex_upper_byte((b % 16) as nat));
            assert(all.skip(3) =~= rest);
            assert((((b / 16) as nat) * 16 + ((b % 16) as nat)) as u8 == b);
        }
        assert(bs =~= seq![b] + bs.drop_first());
    }
}

/// Decoding undoes encoding.
pub proof fn lemma_decode_encode(s: Seq<char>)
    ensures
        percent_decoded(percent_encoded(s)) == s,
{
    let bs = encode_utf8(s);
    lemma_encode_bytes(bs);
    lemma_decode_encoded_raw(bs);
}

/// The encoding of any text holds only ASCII letters, digits and `%`.
pub proof fn lemma_encoded_chars(s: Seq<char>)
    ensures
        forall|i: int|
            0 <= i < percent_encoded(s).len() ==> is_encoded_char(#[trigger] percent_encoded(s)[i]),
{
    lemma_encode_bytes(encode_utf8(s));
}

proof fn lemma_scalar_no_percent(c: char)
    requires
        c != '%',
    ensures
        !encode_utf8(seq![c]).contains(37u8),
{
    lemma_encode_utf8_single(c);
    let u = c as u32;
    char_is_scalar(c);
    assert(u != 37);
    let e = encode_scalar(u);
    if has_width_1_encoding(u) {
        assert(leading_byte_width_1(u) != 37u8) by (bit_vector)
            requires
                u != 37,
                u <= 0x7f,
        ;
        assert(e =~= seq![leading_byte_width_1(u)]);
    } else if has_width_2_encoding(u) {
        assert(leading_byte_width_2(u) != 37u8 && last_continuation_byte(u) != 37u8)
            by (bit_vector);
        assert(e =~= seq![leading_byte_width_2(u), last_continuation_byte(u)]);
    } else if has_width_3_encoding(u) {
        assert(leading_byte_width_3(u) != 37u8 && second_last_continuation_byte(u) != 37u8
            && last_continuation_byte(u) != 37u8) by (bit_vector);
    } else {
        assert(leading_byte_width_4(u) != 37u8 && third_last_continuation_byte(u) != 37u8
            && second_last_continuation_byte(u) != 37u8 && last_continuation_byte(u) != 37u8)
            by (bit_vector);
    }
    if e.contains(37u8) {
        let k = choose|k: int| 0 <= k < e.len() && e[k] == 37u8;
        assert(false);
    }
}

proof fn lemma_encode_utf8_no_percent(s: Seq<char>)
    requires
        !s.contains('%'),
    ensures
        !encode_utf8(s).contains(37u8),
    decreases s.len(),
{
    if s.len() > 0 {
        assert(s[0] != '%');
        assert forall|i: int| 0 <= i < s.drop_first().len() implies s.drop_first()[i] != '%' by {
            assert(s.drop_first()[i] == s[i + 1]);
        }
        lemma_encode_utf8_no_percent(s.drop_first());
        lemma_scalar_no_percent(s[0]);
        assert(seq![s[0]] + s.drop_first() =~= s);
        lemma_encode_utf8_concat(seq![s[0]], s.drop_first());
        let a = encode_utf8(seq![s[0]]);
        let b = encode_utf8(s.drop_first());
        if (a + b).contains(37u8) {
            let k = choose|k: int| 0 <= k < (a + b).len() && (a + b)[k] == 37u8;
            if k < a.len() {
                assert(a[k] == 37u8);
            } else {
                assert(b[k - a.len()] == 37u8);
            }
        }
    }
}

proof fn lemma_decode_bytes_plain(bs: Seq<u8>)
    requires
        !bs.contains(37u8),
    ensures
        decode_bytes(bs) == bs,
    decreases bs.len(),
{
    if bs.len() > 0 {
        assert(bs[0] != 37u8);
        let t = bs.drop_first();
        assert forall|i: int| 0 <= i < t.len() implies t[i] != 37u8 by {
            assert(t[i] == bs[i + 1]);
        }
        lemma_decode_bytes_plain(t);
        assert(seq![bs[0]] + t =~= bs);
    }
}

/// Text without `%` decodes to itself.
pub proof fn lemma_decode_plain(s: Seq<char>)
    requires
        !s.contains('%'),
    ensures
        percent_decoded(s) == s,
{
    lemma_encode_utf8_no_percent(s);
    lemma_decode_bytes_plain(encode_utf8(s));
}

} // verus!

//! Source lists and the extraction of `vless://` links from subscription
//! bodies (including bodies that are base64 of the link list).
use vstd::prelude::*;
use vstd::utf8::{decode_utf8, encode_utf8, valid_utf8};

use base64::Engine;

use crate::output::{b64_char, base64_encoded, join_lines};
use crate::text::{
    chars_of, find_char, find_chars, find_sub, is_whitespace, is_ws, lemma_find_sub,
    lemma_index_of, lemma_split_ws_end, lemma_split_ws_step, lemma_split_ws_substrings,
    lemma_split_ws_tokens, occurs_in, slice_copy, split, split_ws, starts_with, string_of,
    strings_view, strip_ws, strip_ws_chars, trim, trim_chars, trim_end_char, trim_end_char_chars,
};
use crate::vless::scheme;

verus! {

/// Result of fetching a single source.
pub struct FetchResult {
    pub url: String,
    pub body: Option<String>,
}

/// A line that names a source: not empty and not a `#` comment.
pub open spec fn is_source_line(l: Seq<char>) -> bool {
    l.len() > 0 && l[0] != '#'
}

/// The trimmed source lines among `lines`, in order.
pub open spec fn source_lines(lines: Seq<Seq<char>>) -> Seq<Seq<char>>
    decreases lines.len(),
{
    if lines.len() == 0 {
        Seq::empty()
    } else {
        let acc = source_lines(lines.drop_last());
        let l = trim(lines.last());
        if is_source_line(l) {
            acc.push(l)
        } else {
            acc
        }
    }
}

/// The sources a newline-separated list names.
pub open spec fn source_list(body: Seq<char>) -> Seq<Seq<char>> {
    source_lines(split(body, '\n'))
}

/// Every listed source is a non-empty line that is not a `#` comment, and
/// every such line of the list is listed.
pub proof fn lemma_source_list(body: Seq<char>)
    ensures
        forall|i: int|
            0 <= i < source_list(body).len() ==> is_source_line(#[trigger] source_list(body)[i]),
        forall|l: Seq<char>| #[trigger]
            split(body, '\n').contains(l) && is_source_line(trim(l)) ==> source_list(
                body,
            ).contains(trim(l)),
{
    lemma_source_lines(split(body, '\n'));
}

proof fn lemma_source_lines(lines: Seq<Seq<char>>)
    ensures
        forall|i: int|
            0 <= i < source_lines(lines).len() ==> is_source_line(#[trigger] source_lines(lines)[i]),
        forall|l: Seq<char>| #[trigger]
            lines.contains(l) && is_source_line(trim(l)) ==> source_lines(lines).contains(trim(l)),
    decreases lines.len(),
{
    if lines.len() > 0 {
        let init = lines.drop_last();
        lemma_source_lines(init);
        let acc = source_lines(init);
        let r = source_lines(lines);
        let t = trim(lines.last());
        assert forall|i: int| 0 <= i < r.len() implies is_source_line(#[trigger] r[i]) by {
            if i < acc.len() {
                assert(r[i] == acc[i]);
            }
        }
        assert forall|l: Seq<char>| #[trigger]
            lines.contains(l) && is_source_line(trim(l)) implies r.contains(trim(l)) by {
            let a = choose|a: int| 0 <= a < lines.len() && lines[a] == l;
            if a == lines.len() - 1 {
                assert(r[r.len() - 1] == t);
            } else {
                assert(init[a] == l);
                assert(init.contains(l));
                let b = choose|b: int| 0 <= b < acc.len() && acc[b] == trim(l);
                assert(r[b] == acc[b]);
            }
        }
    }
}

/// The source lines of two lists of lines are those of each, in order.
pub proof fn lemma_source_lines_concat(a: Seq<Seq<char>>, b: Seq<Seq<char>>)
    ensures
        source_lines(a + b) == source_lines(a) + source_lines(b),
    decreases b.len(),
{
    if b.len() == 0 {
        assert(a + b =~= a);
        assert(source_lines(a) + source_lines(b) =~= source_lines(a));
    } else {
        lemma_source_lines_concat(a, b.drop_last());
        assert((a + b).drop_last() =~= a + b.drop_last());
        assert((a + b).last() == b.last());
        let l = trim(b.last());
        if is_source_line(l) {
            assert(source_lines(a) + source_lines(b.drop_last()).push(l) =~= (source_lines(a)
                + source_lines(b.drop_last())).push(l));
        }
    }
}

/// A list of sources joined from two texts by a newline names the sources of
/// the first text, then those of the second.
pub proof fn lemma_source_list_concat(a: Seq<char>, b: Seq<char>)
    ensures
        source_list(a + seq!['\n'] + b) == source_list(a) + source_list(b),
{
    crate::text::lemma_split_concat(a, b, '\n');
    lemma_source_lines_concat(split(a, '\n'), split(b, '\n'));
}

/// The built-in source list. It ships empty: run with a sources file.
pub const EMBEDDED_SOURCES: &'static str = "";

/// Parse the embedded default source list.
pub fn default_sources() -> (r: Vec<String>)
    ensures
        strings_view(r@) == source_list(EMBEDDED_SOURCES@),
{
    parse_source_list(EMBEDDED_SOURCES)
}

/// Parse a newline-separated source list, ignoring blanks and `#` comments.
pub fn parse_source_list(body: &str) -> (r: Vec<String>)
    ensures
        strings_view(r@) == source_list(body@),
{
    let cs = chars_of(body);
    let mut out: Vec<String> = Vec::new();
    let mut rem: Vec<char> = slice_copy(&cs, 0, cs.len());
    assert(rem@ =~= body@);
    let ghost mut done: Seq<Seq<char>> = Seq::empty();
    assert(done + split(rem@, '\n') =~= split(body@, '\n'));
    assert(strings_view(out@) =~= Seq::<Seq<char>>::empty());
    loop
        invariant_except_break
            split(body@, '\n') == done + split(rem@, '\n'),
            strings_view(out@) == source_lines(done),
        ensures
            strings_view(out@) == source_lines(split(body@, '\n')),
        decreases rem@.len(),
    {
        proof {
            lemma_index_of(rem@, '\n');
        }
        let (line, next, last) = match find_char(&rem, '\n') {
            Some(i) => {
                let piece = slice_copy(&rem, 0, i);
                let next = slice_copy(&rem, i + 1, rem.len());
                assert(piece@ =~= rem@.take(i as int));
                assert(next@ =~= rem@.skip(i + 1));
                assert(split(rem@, '\n') == seq![piece@] + split(next@, '\n'));
                (piece, next, false)
            },
            None => {
                assert(split(rem@, '\n') == seq![rem@]);
                (slice_copy(&rem, 0, rem.len()), Vec::new(), true)
            },
        };
        let t = trim_chars(&line);
        let ghost before = strings_view(out@);
        if t.len() > 0 && t[0] != '#' {
            out.push(string_of(&t));
            assert(strings_view(out@) =~= before.push(t@));
        }
        proof {
            assert(done.push(line@).drop_last() =~= done);
            if last {
                assert(line@ =~= rem@);
                assert(done + split(rem@, '\n') =~= done.push(line@));
            } else {
                assert(done + split(rem@, '\n') =~= done.push(line@) + split(next@, '\n'));
            }
            done = done.push(line@);
        }
        if last {
            break ;
        }
        rem = next;
    }
    out
}

/// For each token holding `vless://`, its suffix from the first occurrence.
pub open spec fn scan_tokens(tokens: Seq<Seq<char>>) -> Seq<Seq<char>>
    decreases tokens.len(),
{
    if tokens.len() == 0 {
        Seq::empty()
    } else {
        let acc = scan_tokens(tokens.drop_last());
        let t = tokens.last();
        match find_sub(t, scheme()) {
            Some(i) => acc.push(t.skip(i)),
            None => acc,
        }
    }
}

/// `vless://...` tokens in arbitrary white-space separated text.
pub open spec fn scan_links(text: Seq<char>) -> Seq<Seq<char>> {
    scan_tokens(split_ws(text))
}

/// Find `vless://...` tokens in arbitrary text (whitespace separated).
pub fn scan_for_vless(text: &str) -> (r: Vec<String>)
    ensures
        strings_view(r@) == scan_links(text@),
{
    let cs = chars_of(text);
    let pat = vec!['v', 'l', 'e', 's', 's', ':', '/', '/'];
    assert(pat@ =~= scheme());
    let mut out: Vec<String> = Vec::new();
    let mut pos: usize = 0;
    let ghost mut done: Seq<Seq<char>> = Seq::empty();
    assert(cs@.skip(0) =~= cs@);
    assert(strings_view(out@) =~= Seq::<Seq<char>>::empty());
    loop
        invariant_except_break
            0 <= pos <= cs.len(),
            cs@ == text@,
            pat@ == scheme(),
            split_ws(cs@) == done + split_ws(cs@.skip(pos as int)),
            strings_view(out@) == scan_tokens(done),
        ensures
            strings_view(out@) == scan_tokens(split_ws(text@)),
        decreases cs.len() - pos,
    {
        let ghost s = cs@.skip(pos as int);
        let mut lo: usize = pos;
        while lo < cs.len() && is_whitespace(cs[lo])
            invariant
                pos <= lo <= cs.len(),
                s == cs@.skip(pos as int),
                forall|j: int| pos <= j < lo ==> is_ws(#[trigger] cs@[j]),
            decreases cs.len() - lo,
        {
            lo = lo + 1;
        }
        if lo == cs.len() {
            proof {
                assert forall|j: int| 0 <= j < s.len() implies is_ws(#[trigger] s[j]) by {
                    assert(s[j] == cs@[j + pos]);
                }
                lemma_split_ws_end(s);
                assert(done + Seq::<Seq<char>>::empty() =~= done);
            }
            break ;
        }
        let mut hi: usize = lo;
        while hi < cs.len() && !is_whitespace(cs[hi])
            invariant
                lo <= hi <= cs.len(),
                forall|j: int| lo <= j < hi ==> !is_ws(#[trigger] cs@[j]),
            decreases cs.len() - hi,
        {
            hi = hi + 1;
        }
        let token = slice_copy(&cs, lo, hi);
        proof {
            let a = lo - pos;
            let b = hi - pos;
            assert forall|j: int| 0 <= j < a implies is_ws(#[trigger] s[j]) by {
                assert(s[j] == cs@[j + pos]);
            }
            assert forall|j: int| a <= j < b implies !is_ws(#[trigger] s[j]) by {
                assert(s[j] == cs@[j + pos]);
            }
            if hi < cs.len() {
                assert(s[b] == cs@[hi as int]);
            }
            lemma_split_ws_step(s, a as int, b as int);
            assert(s.subrange(a as int, b as int) =~= token@);
            assert(s.skip(b as int) =~= cs@.skip(hi as int));
            assert(done.push(token@).drop_last() =~= done);
            assert(done + split_ws(s) =~= done.push(token@) + split_ws(cs@.skip(hi as int)));
        }
        let ghost before = strings_view(out@);
        match find_chars(&token, &pat) {
            Some(i) => {
                let tail = slice_copy(&token, i, token.len());
                assert(tail@ =~= token@.skip(i as int));
                out.push(string_of(&tail));
                assert(strings_view(out@) =~= before.push(tail@));
            },
            None => {},
        }
        proof {
            done = done.push(token@);
        }
        pos = hi;
    }
    out
}

/// Symbol `i` (0 to 63) of the standard or, with `url_safe`, the URL-safe
/// base64 alphabet (which writes `-` and `_` for `+` and `/`).
pub open spec fn b64_symbol(i: int, url_safe: bool) -> char {
    if url_safe && i == 62 {
        '-'
    } else if url_safe && i == 63 {
        '_'
    } else {
        b64_char(i)
    }
}

/// Base64 without padding: each 3 bytes become 4 symbols, a final 1 or 2
/// bytes become 2 or 3 symbols whose unused low bits are zero.
pub open spec fn base64_unpadded(b: Seq<u8>, url_safe: bool) -> Seq<char>
    decreases b.len(),
{
    if b.len() == 0 {
        Seq::empty()
    } else if b.len() == 1 {
        seq![b64_symbol((b[0] / 4) as int, url_safe), b64_symbol((b[0] % 4) * 16, url_safe)]
    } else if b.len() == 2 {
        seq![
            b64_symbol((b[0] / 4) as int, url_safe),
            b64_symbol((b[0] % 4) * 16 + b[1] / 16, url_safe),
            b64_symbol((b[1] % 16) * 4, url_safe),
        ]
    } else {
        seq![
            b64_symbol((b[0] / 4) as int, url_safe),
            b64_symbol((b[0] % 4) * 16 + b[1] / 16, url_safe),
            b64_symbol((b[1] % 16) * 4 + b[2] / 64, url_safe),
            b64_symbol((b[2] % 64) as int, url_safe),
        ] + base64_unpadded(b.skip(3), url_safe)
    }
}

/// The bytes whose unpadded base64 is `t`, if there are any (there is at
/// most one such byte string: `lemma_base64_unpadded_injective`).
pub open spec fn base64_decoded(t: Seq<char>, url_safe: bool) -> Option<Seq<u8>> {
    if exists|b: Seq<u8>| base64_unpadded(b, url_safe) == t {
        Some(choose|b: Seq<u8>| base64_unpadded(b, url_safe) == t)
    } else {
        None
    }
}

proof fn lemma_b64_symbol_injective(i: int, ui: bool, j: int, uj: bool)
    requires
        0 <= i < 64,
        0 <= j < 64,
        b64_symbol(i, ui) == b64_symbol(j, uj),
    ensures
        i == j,
{
}

/// Properties of every base64 symbol: not white space, `=` or `:`.
proof fn lemma_b64_symbol_plain(i: int, u: bool)
    requires
        0 <= i < 64,
    ensures
        !is_ws(b64_symbol(i, u)),
        b64_symbol(i, u) != '=',
        b64_symbol(i, u) != ':',
{
}

proof fn lemma_base64_unpadded_len(b: Seq<u8>, url_safe: bool)
    ensures
        base64_unpadded(b, url_safe).len() == 4 * (b.len() / 3) + if b.len() % 3 == 0 {
            0int
        } else {
            (b.len() % 3 + 1) as int
        },
    decreases b.len(),
{
    if b.len() >= 3 {
        lemma_base64_unpadded_len(b.skip(3), url_safe);
    }
}

proof fn lemma_group_injective(x0: u8, x1: u8, x2: u8, y0: u8, y1: u8, y2: u8)
    requires
        x0 / 4 == y0 / 4,
        (x0 % 4) * 16 + x1 / 16 == (y0 % 4) * 16 + y1 / 16,
        (x1 % 16) * 4 + x2 / 64 == (y1 % 16) * 4 + y2 / 64,
        x2 % 64 == y2 % 64,
    ensures
        x0 == y0 && x1 == y1 && x2 == y2,
{
    assert(x0 / 4 == y0 / 4 && (x0 % 4) * 16 + x1 / 16 == (y0 % 4) * 16 + y1 / 16 && (x1 % 16) * 4
        + x2 / 64 == (y1 % 16) * 4 + y2 / 64 && x2 % 64 == y2 % 64 ==> x0 == y0 && x1 == y1 && x2
        == y2) by (bit_vector);
}

/// Unpadded base64 is injective, also across the two alphabets: the
/// encoding determines the bytes.
pub proof fn lemma_base64_unpadded_injective(a: Seq<u8>, ua: bool, b: Seq<u8>, ub: bool)
    requires
        base64_unpadded(a, ua) == base64_unpadded(b, ub),
    ensures
        a == b,
    decreases a.len(),
{
    lemma_base64_unpadded_len(a, ua);
    lemma_base64_unpadded_len(b, ub);
    assert(a.len() == b.len());
    let ea = base64_unpadded(a, ua);
    let eb = base64_unpadded(b, ub);
    if a.len() == 1 {
        assert(ea[0] == eb[0] && ea[1] == eb[1]);
        lemma_b64_symbol_injective((a[0] / 4) as int, ua, (b[0] / 4) as int, ub);
        lemma_b64_symbol_injective((a[0] % 4) * 16, ua, (b[0] % 4) * 16, ub);
        lemma_group_injective(a[0], 0, 0, b[0], 0, 0);
        assert(a =~= b);
    } else if a.len() == 2 {
        assert(ea[0] == eb[0] && ea[1] == eb[1] && ea[2] == eb[2]);
        lemma_b64_symbol_injective((a[0] / 4) as int, ua, (b[0] / 4) as int, ub);
        lemma_b64_symbol_injective((a[0] % 4) * 16 + a[1] / 16, ua, (b[0] % 4) * 16 + b[1] / 16, ub);
        lemma_b64_symbol_injective((a[1] % 16) * 4, ua, (b[1] % 16) * 4, ub);
        lemma_group_injective(a[0], a[1], 0, b[0], b[1], 0);
        assert(a =~= b);
    } else if a.len() >= 3 {
        assert(ea[0] == eb[0] && ea[1] == eb[1] && ea[2] == eb[2] && ea[3] == eb[3]);
        lemma_b64_symbol_injective((a[0] / 4) as int, ua, (b[0] / 4) as int, ub);
        lemma_b64_symbol_injective((a[0] % 4) * 16 + a[1] / 16, ua, (b[0] % 4) * 16 + b[1] / 16, ub);
        lemma_b64_symbol_injective(
            (a[1] % 16) * 4 + a[2] / 64,
            ua,
            (b[1] % 16) * 4 + b[2] / 64,
            ub,
        );
        lemma_b64_symbol_injective((a[2] % 64) as int, ua, (b[2] % 64) as int, ub);
        lemma_group_injective(a[0], a[1], a[2], b[0], b[1], b[2]);
        assert(ea.skip(4) =~= base64_unpadded(a.skip(3), ua));
        assert(eb.skip(4) =~= base64_unpadded(b.skip(3), ub));
        lemma_base64_unpadded_injective(a.skip(3), ua, b.skip(3), ub);
        assert forall|k: int| 0 <= k < a.len() implies a[k] == b[k] by {
            if k >= 3 {
                assert(a[k] == a.skip(3)[k - 3]);
                assert(b[k] == b.skip(3)[k - 3]);
            }
        }
        assert(a =~= b);
    } else {
        assert(a =~= b);
    }
}

/// No character of a base64 encoding is white space, `=` or `:`.
proof fn lemma_base64_unpadded_plain(b: Seq<u8>, u: bool)
    ensures
        forall|k: int|
            0 <= k < base64_unpadded(b, u).len() ==> !is_ws(#[trigger] base64_unpadded(b, u)[k])
                && base64_unpadded(b, u)[k] != '=' && base64_unpadded(b, u)[k] != ':',
    decreases b.len(),
{
    let e = base64_unpadded(b, u);
    if b.len() == 1 {
        lemma_b64_symbol_plain((b[0] / 4) as int, u);
        lemma_b64_symbol_plain((b[0] % 4) * 16, u);
    } else if b.len() == 2 {
        lemma_b64_symbol_plain((b[0] / 4) as int, u);
        lemma_b64_symbol_plain((b[0] % 4) * 16 + b[1] / 16, u);
        lemma_b64_symbol_plain((b[1] % 16) * 4, u);
    } else if b.len() >= 3 {
        lemma_b64_symbol_plain((b[0] / 4) as int, u);
        lemma_b64_symbol_plain((b[0] % 4) * 16 + b[1] / 16, u);
        lemma_b64_symbol_plain((b[1] % 16) * 4 + b[2] / 64, u);
        lemma_b64_symbol_plain((b[2] % 64) as int, u);
        lemma_base64_unpadded_plain(b.skip(3), u);
        let rest = base64_unpadded(b.skip(3), u);
        assert forall|k: int| 4 <= k < e.len() implies !is_ws(#[trigger] e[k]) && e[k] != '='
            && e[k] != ':' by {
            assert(e[k] == rest[k - 4]);
        }
    }
}

/// A decoder's answer, stated as the crate's contract, is `base64_decoded`.
proof fn lemma_decoder_answer(r: Option<Seq<u8>>, t: Seq<char>, url_safe: bool)
    requires
        match r {
            Some(v) => base64_unpadded(v, url_safe) == t,
            None => forall|b: Seq<u8>| base64_unpadded(b, url_safe) != t,
        },
    ensures
        r == base64_decoded(t, url_safe),
{
    match r {
        Some(v) => {
            assert(base64_unpadded(v, url_safe) == t);
            let c = choose|b: Seq<u8>| base64_unpadded(b, url_safe) == t;
            lemma_base64_unpadded_injective(c, url_safe, v, url_safe);
        },
        None => {},
    }
}

/// Calls `base64::engine::general_purpose::STANDARD_NO_PAD.decode`. Claimed:
/// it succeeds exactly when the text is the unpadded standard base64 of
/// some bytes (the crate rejects `=`, symbols outside the alphabet, a length
/// of the form 4k+1 and a last symbol with set unused bits), and then gives
/// those bytes.
#[verifier::external_body]
fn decode_standard(input: &str) -> (r: Option<Vec<u8>>)
    ensures
        match r {
            Some(v) => base64_unpadded(v@, false) == input@,
            None => forall|b: Seq<u8>| base64_unpadded(b, false) != input@,
        },
{
    base64::engine::general_purpose::STANDARD_NO_PAD.decode(input).ok()
}

/// Calls `base64::engine::general_purpose::URL_SAFE_NO_PAD.decode`. Claimed:
/// as `decode_standard`, with the URL-safe alphabet.
#[verifier::external_body]
fn decode_url_safe(input: &str) -> (r: Option<Vec<u8>>)
    ensures
        match r {
            Some(v) => base64_unpadded(v@, true) == input@,
            None => forall|b: Seq<u8>| base64_unpadded(b, true) != input@,
        },
{
    base64::engine::general_purpose::URL_SAFE_NO_PAD.decode(input).ok()
}

/// `String::from_utf8`: the text of well-formed UTF-8 bytes, `None` otherwise.
#[verifier::external_body]
fn utf8_text(bytes: Vec<u8>) -> (r: Option<String>)
    ensures
        match r {
            Some(t) => valid_utf8(bytes@) && t@ == decode_utf8(bytes@),
            None => !valid_utf8(bytes@),
        },
{
    String::from_utf8(bytes).ok()
}

/// `://`.
pub open spec fn link_marker() -> Seq<char> {
    seq![':', '/', '/']
}

/// Decoded bytes taken when they are UTF-8 text holding `://`.
pub open spec fn usable_text(decoded: Option<Seq<u8>>) -> Option<Seq<char>> {
    match decoded {
        Some(b) => if valid_utf8(b) && find_sub(decode_utf8(b), link_marker()) is Some {
            Some(decode_utf8(b))
        } else {
            None
        },
        None => None,
    }
}

/// The body, or the text it is base64 of: with white space removed and
/// trailing `=` dropped, the body is decoded as standard, then as URL-safe
/// base64 (both unpadded); the first result that is UTF-8 text holding
/// `://` is taken. Bodies shorter than 8 bytes once white space is removed
/// are kept as they are.
pub open spec fn maybe_decoded(body: Seq<char>) -> Seq<char> {
    let compact = strip_ws(body);
    if encode_utf8(compact).len() < 8 {
        body
    } else {
        let input = trim_end_char(compact, '=');
        match usable_text(base64_decoded(input, false)) {
            Some(t) => t,
            None => match usable_text(base64_decoded(input, true)) {
                Some(t) => t,
                None => body,
            },
        }
    }
}

/// Text from decoded bytes when it is usable.
fn take_usable(decoded: Option<Vec<u8>>) -> (r: Option<String>)
    ensures
        match r {
            Some(t) => usable_text(vec_opt_view(decoded)) == Some(t@),
            None => usable_text(vec_opt_view(decoded)) is None,
        },
{
    match decoded {
        Some(bytes) => match utf8_text(bytes) {
            Some(text) => {
                let tc = chars_of(text.as_str());
                let marker = vec![':', '/', '/'];
                assert(marker@ =~= link_marker());
                if find_chars(&tc, &marker).is_some() {
                    Some(text)
                } else {
                    None
                }
            },
            None => None,
        },
        None => None,
    }
}

/// Bytes of an optional vector.
pub open spec fn vec_opt_view(v: Option<Vec<u8>>) -> Option<Seq<u8>> {
    match v {
        Some(b) => Some(b@),
        None => None,
    }
}

/// If the whole body looks like base64 of text, decode it; otherwise return as-is.
fn maybe_base64_decode(body: &str) -> (r: String)
    ensures
        r@ == maybe_decoded(body@),
{
    let cs = chars_of(body);
    let compact = string_of(&strip_ws_chars(&cs));
    if compact.as_str().as_bytes().len() < 8 {
        return body.to_owned();
    }
    let trimmed = string_of(&trim_end_char_chars(&chars_of(compact.as_str()), '='));
    let standard = decode_standard(trimmed.as_str());
    proof {
        lemma_decoder_answer(vec_opt_view(standard), trimmed@, false);
    }
    match take_usable(standard) {
        Some(t) => return t,
        None => {},
    }
    let url_safe = decode_url_safe(trimmed.as_str());
    proof {
        lemma_decoder_answer(vec_opt_view(url_safe), trimmed@, true);
    }
    match take_usable(url_safe) {
        Some(t) => return t,
        None => {},
    }
    body.to_owned()
}

/// Every `vless://` link in a subscription body, from its base64-decoded
/// text when that holds links, otherwise from the body itself.
pub open spec fn spec_extract_links(body: Seq<char>) -> Seq<Seq<char>> {
    let links = scan_links(maybe_decoded(body));
    if links.len() == 0 {
        scan_links(body)
    } else {
        links
    }
}

proof fn lemma_scan_tokens(tokens: Seq<Seq<char>>)
    requires
        forall|i: int, j: int|
            0 <= i < tokens.len() && 0 <= j < tokens[i].len() ==> !is_ws(#[trigger] tokens[i][j]),
    ensures
        forall|i: int|
            0 <= i < scan_tokens(tokens).len() ==> starts_with(
                #[trigger] scan_tokens(tokens)[i],
                scheme(),
            ) && forall|j: int|
                0 <= j < scan_tokens(tokens)[i].len() ==> !is_ws(
                    #[trigger] scan_tokens(tokens)[i][j],
                ),
    decreases tokens.len(),
{
    if tokens.len() > 0 {
        let init = tokens.drop_last();
        let t = tokens.last();
        assert forall|i: int, j: int|
            0 <= i < init.len() && 0 <= j < init[i].len() implies !is_ws(#[trigger] init[i][j]) by {
            assert(init[i] == tokens[i]);
        }
        lemma_scan_tokens(init);
        lemma_find_sub(t, scheme());
        let acc = scan_tokens(init);
        let r = scan_tokens(tokens);
        match find_sub(t, scheme()) {
            Some(k) => {
                assert(r == acc.push(t.skip(k)));
                assert forall|i: int| 0 <= i < r.len() implies starts_with(#[trigger] r[i], scheme())
                    && forall|j: int| 0 <= j < r[i].len() ==> !is_ws(#[trigger] r[i][j]) by {
                    if i == acc.len() {
                        assert forall|j: int| 0 <= j < r[i].len() implies !is_ws(
                            #[trigger] r[i][j],
                        ) by {
                            assert(r[i][j] == t[j + k]);
                            assert(t == tokens[tokens.len() - 1]);
                        }
                    } else {
                        assert(r[i] == acc[i]);
                    }
                }
            },
            None => {},
        }
    }
}

/// Every link scanned from a text begins with `vless://` and holds no
/// white space.
pub proof fn lemma_scanned_links(text: Seq<char>)
    ensures
        forall|i: int|
            0 <= i < scan_links(text).len() ==> starts_with(#[trigger] scan_links(text)[i], scheme())
                && forall|j: int|
                0 <= j < scan_links(text)[i].len() ==> !is_ws(#[trigger] scan_links(text)[i][j]),
{
    lemma_split_ws_tokens(text);
    lemma_scan_tokens(split_ws(text));
}

/// Every link extracted from a subscription body begins with `vless://`
/// and holds no white space.
pub proof fn lemma_extracted_links(body: Seq<char>)
    ensures
        forall|i: int|
            0 <= i < spec_extract_links(body).len() ==> starts_with(
                #[trigger] spec_extract_links(body)[i],
                scheme(),
            ) && forall|j: int|
                0 <= j < spec_extract_links(body)[i].len() ==> !is_ws(
                    #[trigger] spec_extract_links(body)[i][j],
                ),
{
    lemma_scanned_links(maybe_decoded(body));
    lemma_scanned_links(body);
}

proof fn lemma_scan_tokens_pieces(tokens: Seq<Seq<char>>, s: Seq<char>)
    requires
        forall|i: int| 0 <= i < tokens.len() ==> occurs_in(#[trigger] tokens[i], s),
    ensures
        forall|k: int|
            0 <= k < scan_tokens(tokens).len() ==> occurs_in(#[trigger] scan_tokens(tokens)[k], s)
                && starts_with(scan_tokens(tokens)[k], scheme()),
    decreases tokens.len(),
{
    if tokens.len() > 0 {
        let init = tokens.drop_last();
        let t = tokens.last();
        assert forall|i: int| 0 <= i < init.len() implies occurs_in(#[trigger] init[i], s) by {
            assert(init[i] == tokens[i]);
        }
        lemma_scan_tokens_pieces(init, s);
        lemma_find_sub(t, scheme());
        let acc = scan_tokens(init);
        let r = scan_tokens(tokens);
        match find_sub(t, scheme()) {
            Some(i) => {
                assert(r == acc.push(t.skip(i)));
                assert(occurs_in(tokens[tokens.len() - 1], s));
                let j = choose|j: int|
                    0 <= j && j + t.len() <= s.len() && #[trigger] s.subrange(j, j + t.len()) == t;
                assert(s.subrange(j + i, j + i + t.skip(i).len()) =~= t.skip(i));
                assert forall|k: int| 0 <= k < r.len() implies occurs_in(#[trigger] r[k], s)
                    && starts_with(r[k], scheme()) by {
                    if k < acc.len() {
                        assert(r[k] == acc[k]);
                    }
                }
            },
            None => {},
        }
    }
}

/// A text with a scanned link is at least 8 characters long and holds `://`.
proof fn lemma_scan_links_marker(s: Seq<char>)
    requires
        scan_links(s).len() > 0,
    ensures
        s.len() >= 8,
        find_sub(s, link_marker()) is Some,
{
    lemma_split_ws_substrings(s);
    lemma_scan_tokens_pieces(split_ws(s), s);
    let l = scan_links(s)[0];
    assert(occurs_in(l, s));
    let q = choose|q: int| 0 <= q && q + l.len() <= s.len() && #[trigger] s.subrange(q, q + l.len()) == l;
    assert(starts_with(l, scheme()));
    assert(l.take(8) == scheme());
    assert(l[5] == ':' && l[6] == '/' && l[7] == '/') by {
        assert(l[5] == l.take(8)[5] && l[6] == l.take(8)[6] && l[7] == l.take(8)[7]);
    }
    assert(s[q + 5] == l[5] && s[q + 6] == l[6] && s[q + 7] == l[7]) by {
        assert(s.subrange(q, q + l.len())[5] == s[q + 5]);
        assert(s.subrange(q, q + l.len())[6] == s[q + 6]);
        assert(s.subrange(q, q + l.len())[7] == s[q + 7]);
    }
    assert(s.skip(q + 5).take(3) =~= link_marker());
    lemma_find_sub(s, link_marker());
    if find_sub(s, link_marker()) is None {
        assert(!starts_with(s.skip(q + 5), link_marker()));
    }
}

/// A text without `:` holds no link.
proof fn lemma_scan_links_colon_free(s: Seq<char>)
    requires
        !s.contains(':'),
    ensures
        scan_links(s).len() == 0,
{
    if scan_links(s).len() > 0 {
        lemma_scan_links_marker(s);
        lemma_find_sub(s, link_marker());
        let i = find_sub(s, link_marker())->Some_0;
        assert(s.skip(i).take(3) == link_marker());
        assert(s[i] == s.skip(i).take(3)[0]);
    }
}

proof fn lemma_encode_utf8_len(s: Seq<char>)
    ensures
        encode_utf8(s).len() >= s.len(),
    decreases s.len(),
{
    if s.len() > 0 {
        lemma_encode_utf8_len(s.drop_first());
    }
}

proof fn lemma_strip_ws_noop(s: Seq<char>)
    requires
        forall|k: int| 0 <= k < s.len() ==> !is_ws(#[trigger] s[k]),
    ensures
        strip_ws(s) == s,
    decreases s.len(),
{
    if s.len() > 0 {
        let t = s.drop_last();
        assert forall|k: int| 0 <= k < t.len() implies !is_ws(#[trigger] t[k]) by {
            assert(t[k] == s[k]);
        }
        lemma_strip_ws_noop(t);
        assert(s[s.len() - 1] == s.last());
        assert(t.push(s.last()) =~= s);
    }
}

/// A body that is, up to trailing `=`, the unpadded base64 of a text's
/// UTF-8 bytes yields the links of that text.
proof fn lemma_encoded_body(text: Seq<char>, body: Seq<char>, url_safe: bool)
    requires
        forall|k: int| 0 <= k < body.len() ==> !is_ws(#[trigger] body[k]),
        !body.contains(':'),
        trim_end_char(body, '=') == base64_unpadded(encode_utf8(text), url_safe),
        body.len() >= base64_unpadded(encode_utf8(text), url_safe).len(),
    ensures
        spec_extract_links(body) == scan_links(text),
{
    broadcast use vstd::utf8::encode_utf8_valid_utf8, vstd::utf8::encode_utf8_decode_utf8;

    let bytes = encode_utf8(text);
    let input = base64_unpadded(bytes, url_safe);
    lemma_base64_unpadded_len(bytes, url_safe);
    lemma_encode_utf8_len(text);
    lemma_encode_utf8_len(body);
    lemma_strip_ws_noop(body);
    lemma_scan_links_colon_free(body);
    if scan_links(text).len() > 0 {
        lemma_scan_links_marker(text);
    }
    let usable = find_sub(text, link_marker()) is Some;
    if encode_utf8(body).len() >= 8 {
        assert(valid_utf8(bytes));
        assert(decode_utf8(bytes) == text);
        assert(usable_text(Some(bytes)) == if usable {
            Some(text)
        } else {
            None::<Seq<char>>
        });
        if base64_decoded(input, false) is Some {
            let c = choose|b: Seq<u8>| base64_unpadded(b, false) == input;
            lemma_base64_unpadded_injective(c, false, bytes, url_safe);
            assert(base64_decoded(input, false) == Some(bytes));
        } else {
            assert(url_safe);
            let c = choose|b: Seq<u8>| base64_unpadded(b, true) == input;
            lemma_base64_unpadded_injective(c, true, bytes, url_safe);
            assert(base64_decoded(input, true) == Some(bytes));
        }
        if base64_decoded(input, true) is Some {
            let c = choose|b: Seq<u8>| base64_unpadded(b, true) == input;
            lemma_base64_unpadded_injective(c, true, bytes, url_safe);
            assert(base64_decoded(input, true) == Some(bytes));
        }
        assert(maybe_decoded(body) == if usable {
            text
        } else {
            body
        });
    } else {
        if scan_links(text).len() > 0 {
            assert(bytes.len() >= 8);
            assert(input.len() >= 8);
        }
        assert(maybe_decoded(body) == body);
    }
}

/// A subscription that is the unpadded base64 (either alphabet) of a text's
/// UTF-8 bytes yields exactly the links of that text.
pub proof fn lemma_base64_subscription(text: Seq<char>, url_safe: bool)
    ensures
        spec_extract_links(base64_unpadded(encode_utf8(text), url_safe)) == scan_links(text),
{
    let body = base64_unpadded(encode_utf8(text), url_safe);
    lemma_base64_unpadded_plain(encode_utf8(text), url_safe);
    assert(!body.contains(':')) by {
        if body.contains(':') {
            let k = choose|k: int| 0 <= k < body.len() && body[k] == ':';
        }
    }
    if body.len() > 0 {
        assert(body[body.len() - 1] != '=');
    }
    assert(trim_end_char(body, '=') == body);
    lemma_encoded_body(text, body, url_safe);
}

/// `=` padding of an encoding of `n` bytes.
pub open spec fn b64_padding(n: nat) -> Seq<char> {
    if n % 3 == 1 {
        seq!['=', '=']
    } else if n % 3 == 2 {
        seq!['=']
    } else {
        Seq::empty()
    }
}

proof fn lemma_base64_padded(b: Seq<u8>)
    ensures
        base64_encoded(b) == base64_unpadded(b, false) + b64_padding(b.len()),
    decreases b.len(),
{
    if b.len() >= 3 {
        lemma_base64_padded(b.skip(3));
        assert(b.skip(3).len() % 3 == b.len() % 3);
        assert(base64_encoded(b) =~= base64_unpadded(b, false) + b64_padding(b.len()));
    } else if b.len() > 0 {
        assert(base64_encoded(b) =~= base64_unpadded(b, false) + b64_padding(b.len()));
    } else {
        assert(base64_encoded(b) =~= base64_unpadded(b, false) + b64_padding(b.len()));
    }
}

/// A subscription that is the padded standard base64 of a text's UTF-8
/// bytes (as `subscription.txt` is written) yields exactly the links of
/// that text.
pub proof fn lemma_padded_base64_subscription(text: Seq<char>)
    ensures
        spec_extract_links(base64_encoded(encode_utf8(text))) == scan_links(text),
{
    let bytes = encode_utf8(text);
    let u = base64_unpadded(bytes, false);
    let pad = b64_padding(bytes.len());
    let body = base64_encoded(bytes);
    lemma_base64_padded(bytes);
    lemma_base64_unpadded_plain(bytes, false);
    assert(body == u + pad);
    assert forall|k: int| 0 <= k < body.len() implies !is_ws(#[trigger] body[k]) by {
        if k >= u.len() {
            assert(body[k] == pad[k - u.len()]);
        }
    }
    assert(!body.contains(':')) by {
        if body.contains(':') {
            let k = choose|k: int| 0 <= k < body.len() && body[k] == ':';
            if k >= u.len() {
                assert(body[k] == pad[k - u.len()]);
            }
        }
    }
    if u.len() > 0 {
        assert(u[u.len() - 1] != '=');
    }
    assert(trim_end_char(u, '=') == u);
    if pad.len() == 1 {
        assert((u + pad).drop_last() =~= u);
        assert(trim_end_char(u + pad, '=') == trim_end_char(u, '='));
    } else if pad.len() == 2 {
        assert((u + pad).drop_last() =~= u.push('='));
        assert(u.push('=').drop_last() =~= u);
        assert(trim_end_char(u.push('='), '=') == trim_end_char(u, '='));
        assert(trim_end_char(u + pad, '=') == trim_end_char(u.push('='), '='));
    } else {
        assert(u + pad =~= u);
    }
    assert(trim_end_char(body, '=') == u);
    lemma_encoded_body(text, body, false);
}

proof fn lemma_scan_tokens_links(ls: Seq<Seq<char>>)
    requires
        forall|i: int| 0 <= i < ls.len() ==> starts_with(#[trigger] ls[i], scheme()),
    ensures
        scan_tokens(ls) == ls,
    decreases ls.len(),
{
    if ls.len() > 0 {
        let init = ls.drop_last();
        assert forall|i: int| 0 <= i < init.len() implies starts_with(#[trigger] init[i], scheme()) by {
            assert(init[i] == ls[i]);
        }
        lemma_scan_tokens_links(init);
        let l = ls.last();
        assert(starts_with(ls[ls.len() - 1], scheme()));
        assert(find_sub(l, scheme()) == Some(0int));
        assert(l.skip(0) =~= l);
        assert(init.push(l) =~= ls);
    }
}

proof fn lemma_split_ws_lines(ls: Seq<Seq<char>>)
    requires
        forall|i: int|
            0 <= i < ls.len() ==> (#[trigger] ls[i]).len() > 0 && forall|j: int|
                0 <= j < ls[i].len() ==> !is_ws(#[trigger] ls[i][j]),
    ensures
        split_ws(join_lines(ls)) == ls,
    decreases ls.len(),
{
    if ls.len() == 0 {
        lemma_split_ws_end(Seq::<char>::empty());
        assert(split_ws(join_lines(ls)) =~= ls);
    } else {
        let l = ls.last();
        assert(l == ls[ls.len() - 1]);
        assert(forall|j: int| 0 <= j < l.len() ==> !is_ws(#[trigger] l[j]));
        lemma_split_ws_step(l, 0, l.len() as int);
        lemma_split_ws_end(l.skip(l.len() as int));
        assert(l.subrange(0, l.len() as int) =~= l);
        assert(split_ws(l) =~= seq![l]);
        if ls.len() == 1 {
            assert(ls =~= seq![l]);
        } else {
            let init = ls.drop_last();
            assert forall|i: int| 0 <= i < init.len() implies (#[trigger] init[i]).len() > 0
                && forall|j: int| 0 <= j < init[i].len() ==> !is_ws(#[trigger] init[i][j]) by {
                assert(init[i] == ls[i]);
            }
            lemma_split_ws_lines(init);
            crate::text::lemma_split_ws_concat(join_lines(init), '\n', l);
            assert(init + seq![l] =~= ls);
        }
    }
}

/// What `subscription.txt` holds for some links reads back, through link
/// extraction, as exactly those links, when each begins with `vless://`
/// and holds no white space.
pub proof fn lemma_subscription_reads_back(links: Seq<Seq<char>>)
    requires
        forall|i: int|
            0 <= i < links.len() ==> starts_with(#[trigger] links[i], scheme()) && forall|j: int|
                0 <= j < links[i].len() ==> !is_ws(#[trigger] links[i][j]),
    ensures
        spec_extract_links(base64_encoded(encode_utf8(join_lines(links).push('\n')))) == links,
{
    let text = join_lines(links).push('\n');
    lemma_padded_base64_subscription(text);
    lemma_split_ws_lines(links);
    crate::text::lemma_split_ws_concat(join_lines(links), '\n', Seq::<char>::empty());
    assert(join_lines(links) + seq!['\n'] + Seq::<char>::empty() =~= text);
    lemma_split_ws_end(Seq::<char>::empty());
    assert(split_ws(text) =~= links);
    lemma_scan_tokens_links(links);
}

/// Extract every `vless://` link from a subscription body, decoding base64
/// payloads when present.
pub fn extract_links(body: &str) -> (r: Vec<String>)
    ensures
        strings_view(r@) == spec_extract_links(body@),
{
    let decoded = maybe_base64_decode(body);
    let mut links = scan_for_vless(decoded.as_str());
    if links.len() == 0 {
        links = scan_for_vless(body);
    }
    links
}

} // verus!

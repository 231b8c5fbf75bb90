//! The link a node serializes to parses back as the same node.
use vstd::prelude::*;

use crate::params::{key_sorted, lemma_insert_sorted_append, Entries};
use crate::percent::{
    is_encoded_char, lemma_decode_encode, lemma_decode_plain, lemma_encoded_chars,
    percent_encoded,
};
use crate::text::{
    decimal, index_of, is_digit, is_ws, lemma_concat_lacks, lemma_decimal_digits,
    lemma_decimal_lacks, lemma_index_of, trim,
    lemma_index_of_absent, lemma_index_of_sep, lemma_last_index_of_sep, lemma_parse_u16_decimal,
    lemma_split_concat, lemma_split_single, lemma_trim_noop, split, starts_with,
};
use crate::vless::{
    join_query, param_of, parse_authority, parse_main, parse_rest, query_params, query_piece,
    scheme, spec_link, spec_parse, spec_split_host_port, NodeView, ParseError,
};

verus! {

/// Nodes whose fields survive the trip through a link: the uuid is not
/// empty and holds no `@`, `#` or `%`; the host is not empty, does not start
/// with `[` and holds no `#` or `?`; the parameters are in key order.
pub open spec fn link_safe(n: NodeView) -> bool {
    &&& n.uuid.len() > 0
    &&& !n.uuid.contains('@')
    &&& !n.uuid.contains('#')
    &&& !n.uuid.contains('%')
    &&& n.host.len() > 0
    &&& n.host[0] != '['
    &&& !n.host.contains('#')
    &&& !n.host.contains('?')
    &&& key_sorted(n.params)
}

/// Characters of an encoded query.
spec fn query_char(c: char) -> bool {
    is_encoded_char(c) || c == '=' || c == '&'
}

proof fn lemma_encoded_lacks(s: Seq<char>, c: char)
    requires
        !is_encoded_char(c),
    ensures
        !percent_encoded(s).contains(c),
{
    lemma_encoded_chars(s);
    if percent_encoded(s).contains(c) {
        let k = choose|k: int| 0 <= k < percent_encoded(s).len() && percent_encoded(s)[k] == c;
        assert(is_encoded_char(percent_encoded(s)[k]));
    }
}

proof fn lemma_join_chars(ps: Entries)
    ensures
        forall|i: int| 0 <= i < join_query(ps).len() ==> query_char(#[trigger] join_query(ps)[i]),
    decreases ps.len(),
{
    if ps.len() > 0 {
        let e = ps.last();
        lemma_encoded_chars(e.0);
        lemma_encoded_chars(e.1);
        let p = query_piece(e);
        let a = percent_encoded(e.0);
        let b = percent_encoded(e.1);
        assert forall|i: int| 0 <= i < p.len() implies query_char(#[trigger] p[i]) by {
            if i < a.len() {
                assert(p[i] == a[i]);
            } else if i > a.len() {
                assert(p[i] == b[i - a.len() - 1]);
            }
        }
        if ps.len() == 1 {
            assert(ps.last() == ps[0]);
        } else {
            lemma_join_chars(ps.drop_last());
            let j = join_query(ps.drop_last());
            let all = j + seq!['&'] + p;
            assert forall|i: int| 0 <= i < all.len() implies query_char(#[trigger] all[i]) by {
                if i < j.len() {
                    assert(all[i] == j[i]);
                } else if i > j.len() {
                    assert(all[i] == p[i - j.len() - 1]);
                }
            }
        }
    }
}

proof fn lemma_join_lacks(ps: Entries, c: char)
    requires
        !query_char(c),
    ensures
        !join_query(ps).contains(c),
{
    lemma_join_chars(ps);
    if join_query(ps).contains(c) {
        let k = choose|k: int| 0 <= k < join_query(ps).len() && join_query(ps)[k] == c;
        assert(query_char(join_query(ps)[k]));
    }
}

proof fn lemma_piece_lacks_amp(e: (Seq<char>, Seq<char>))
    ensures
        !query_piece(e).contains('&'),
        query_piece(e).len() > 0,
{
    lemma_encoded_lacks(e.0, '&');
    lemma_encoded_lacks(e.1, '&');
    lemma_concat_lacks(percent_encoded(e.0), seq!['='], '&');
    lemma_concat_lacks(percent_encoded(e.0) + seq!['='], percent_encoded(e.1), '&');
}

proof fn lemma_split_join(ps: Entries)
    requires
        ps.len() > 0,
    ensures
        split(join_query(ps), '&') == ps.map_values(|e: (Seq<char>, Seq<char>)| query_piece(e)),
    decreases ps.len(),
{
    let f = |e: (Seq<char>, Seq<char>)| query_piece(e);
    lemma_piece_lacks_amp(ps.last());
    lemma_split_single(query_piece(ps.last()), '&');
    if ps.len() == 1 {
        assert(ps.last() == ps[0]);
        assert(ps.map_values(f) =~= seq![query_piece(ps[0])]);
    } else {
        lemma_split_join(ps.drop_last());
        lemma_split_concat(join_query(ps.drop_last()), query_piece(ps.last()), '&');
        assert(ps.map_values(f) =~= ps.drop_last().map_values(f) + seq![query_piece(ps.last())]);
    }
}

proof fn lemma_param_of_piece(e: (Seq<char>, Seq<char>))
    ensures
        param_of(query_piece(e)) == e,
{
    lemma_encoded_lacks(e.0, '=');
    lemma_index_of_sep(percent_encoded(e.0), percent_encoded(e.1), '=');
    lemma_decode_encode(e.0);
    lemma_decode_encode(e.1);
}

proof fn lemma_query_params_pieces(ps: Entries)
    requires
        key_sorted(ps),
    ensures
        query_params(ps.map_values(|e: (Seq<char>, Seq<char>)| query_piece(e))) == ps,
    decreases ps.len(),
{
    let f = |e: (Seq<char>, Seq<char>)| query_piece(e);
    let m = ps.map_values(f);
    if ps.len() == 0 {
        assert(m =~= Seq::<Seq<char>>::empty());
    } else {
        let init = ps.drop_last();
        assert forall|a: int, b: int| 0 <= a < b < init.len() implies crate::text::seq_lt(
            #[trigger] init[a].0,
            #[trigger] init[b].0,
        ) by {
            assert(init[a] == ps[a] && init[b] == ps[b]);
        }
        lemma_query_params_pieces(init);
        assert(m.drop_last() =~= init.map_values(f));
        assert(m.last() == query_piece(ps.last()));
        lemma_piece_lacks_amp(ps.last());
        lemma_param_of_piece(ps.last());
        assert forall|i: int| 0 <= i < init.len() implies crate::text::seq_lt(
            #[trigger] init[i].0,
            ps.last().0,
        ) by {
            assert(init[i] == ps[i]);
            assert(ps.last() == ps[ps.len() - 1]);
        }
        lemma_insert_sorted_append(init, ps.last().0, ps.last().1);
        assert(init.push((ps.last().0, ps.last().1)) =~= ps);
    }
}

/// The query part of a node's link: `?` and the pieces, or nothing.
spec fn query_part(n: NodeView) -> Seq<char> {
    if n.params.len() > 0 {
        seq!['?'] + join_query(n.params)
    } else {
        Seq::<char>::empty()
    }
}

/// The fragment part of a node's link: `#` and the remark, or nothing.
spec fn fragment_part(n: NodeView) -> Seq<char> {
    if n.remark.len() > 0 {
        seq!['#'] + percent_encoded(n.remark)
    } else {
        Seq::<char>::empty()
    }
}

/// Host, port and query part.
spec fn after_uuid(n: NodeView) -> Seq<char> {
    n.host + seq![':'] + decimal(n.port as nat) + query_part(n)
}

/// Everything before the fragment.
spec fn main_part(n: NodeView) -> Seq<char> {
    n.uuid + seq!['@'] + after_uuid(n)
}

proof fn lemma_rt_trim(n: NodeView)
    requires
        link_safe(n),
    ensures
        spec_parse(spec_link(n)) == parse_rest(main_part(n) + fragment_part(n)),
{
    let l = spec_link(n);
    let p = decimal(n.port as nat);
    let j = join_query(n.params);
    let e = percent_encoded(n.remark);
    assert(l =~= scheme() + (main_part(n) + fragment_part(n)));
    lemma_decimal_digits(n.port as nat);
    lemma_encoded_chars(n.remark);
    lemma_join_chars(n.params);
    assert(l[0] == 'v');
    if n.remark.len() > 0 {
        assert(l.last() == e.last());
        assert(is_encoded_char(e[e.len() - 1]));
    } else if n.params.len() > 0 {
        assert(l.last() == j.last());
        assert(query_char(j[j.len() - 1]));
    } else {
        assert(l.last() == p.last());
        assert(is_digit(p[p.len() - 1]));
    }
    lemma_trim_noop(l);
    assert(l.take(8) =~= scheme());
    assert(l.skip(8) =~= main_part(n) + fragment_part(n));
}

proof fn lemma_rt_fragment(n: NodeView)
    requires
        link_safe(n),
    ensures
        parse_rest(main_part(n) + fragment_part(n)) == parse_main(main_part(n), n.remark),
{
    let m = main_part(n);
    let h = n.host;
    let p = decimal(n.port as nat);
    let q = query_part(n);
    let t = after_uuid(n);
    let e = percent_encoded(n.remark);
    lemma_decimal_lacks(n.port as nat, '#');
    lemma_join_lacks(n.params, '#');
    lemma_concat_lacks(seq!['?'], join_query(n.params), '#');
    assert(!q.contains('#'));
    lemma_concat_lacks(h, seq![':'], '#');
    lemma_concat_lacks(h + seq![':'], p, '#');
    lemma_concat_lacks(h + seq![':'] + p, q, '#');
    lemma_concat_lacks(n.uuid, seq!['@'], '#');
    lemma_concat_lacks(n.uuid + seq!['@'], t, '#');
    assert(!m.contains('#'));
    if n.remark.len() > 0 {
        assert(m + fragment_part(n) =~= m + seq!['#'] + e);
        lemma_index_of_sep(m, e, '#');
        lemma_decode_encode(n.remark);
    } else {
        assert(m + fragment_part(n) =~= m);
        lemma_index_of_absent(m, '#');
        assert(n.remark =~= Seq::<char>::empty());
    }
}

proof fn lemma_rt_uuid(n: NodeView)
    requires
        link_safe(n),
    ensures
        parse_main(main_part(n), n.remark) == parse_authority(n.uuid, after_uuid(n), n.remark),
{
    lemma_index_of_sep(n.uuid, after_uuid(n), '@');
    lemma_decode_plain(n.uuid);
}

proof fn lemma_rt_authority(n: NodeView)
    requires
        link_safe(n),
    ensures
        parse_authority(n.uuid, after_uuid(n), n.remark) == Ok::<NodeView, ParseError>(n),
{
    let h = n.host;
    let p = decimal(n.port as nat);
    let j = join_query(n.params);
    let t = after_uuid(n);
    let auth = h + seq![':'] + p;
    lemma_decimal_lacks(n.port as nat, '?');
    lemma_decimal_lacks(n.port as nat, ':');
    lemma_concat_lacks(h, seq![':'], '?');
    lemma_concat_lacks(h + seq![':'], p, '?');
    if n.params.len() > 0 {
        assert(t =~= auth + seq!['?'] + j);
        lemma_index_of_sep(auth, j, '?');
        lemma_split_join(n.params);
        lemma_query_params_pieces(n.params);
    } else {
        assert(t =~= auth);
        lemma_index_of_absent(auth, '?');
        let nothing = Seq::<char>::empty();
        lemma_split_single(nothing, '&');
        let pieces = seq![nothing];
        assert(pieces.drop_last() =~= Seq::<Seq<char>>::empty());
        assert(query_params(Seq::<Seq<char>>::empty()) =~= Seq::<(Seq<char>, Seq<char>)>::empty());
        assert(pieces.last() == nothing);
        assert(split(nothing, '&') == pieces);
        assert(query_params(split(nothing, '&')) =~= Seq::<(Seq<char>, Seq<char>)>::empty());
        assert(n.params =~= Seq::<(Seq<char>, Seq<char>)>::empty());
    }
    assert(auth[0] == h[0]);
    lemma_last_index_of_sep(h, p, ':');
    lemma_parse_u16_decimal(n.port);
    assert(spec_split_host_port(auth) == Ok::<(Seq<char>, u16), ParseError>((h, n.port)));
}

/// A node's link parses back as the same node, for every node whose fields
/// `link_safe` admits.
pub proof fn lemma_link_round_trip(n: NodeView)
    requires
        link_safe(n),
    ensures
        spec_parse(spec_link(n)) == Ok::<NodeView, ParseError>(n),
{
    lemma_rt_trim(n);
    lemma_rt_fragment(n);
    lemma_rt_uuid(n);
    lemma_rt_authority(n);
}

/// No character of `s` is white space.
pub open spec fn ws_free(s: Seq<char>) -> bool {
    forall|k: int| 0 <= k < s.len() ==> !is_ws(#[trigger] s[k])
}

proof fn lemma_ws_free_concat(a: Seq<char>, b: Seq<char>)
    requires
        ws_free(a),
        ws_free(b),
    ensures
        ws_free(a + b),
{
    assert forall|k: int| 0 <= k < (a + b).len() implies !is_ws(#[trigger] (a + b)[k]) by {
        if k < a.len() {
            assert((a + b)[k] == a[k]);
        } else {
            assert((a + b)[k] == b[k - a.len()]);
        }
    }
}

/// A node's link begins with `vless://`, and holds no white space when its
/// uuid and host hold none (everything else in it is a number or encoded).
pub proof fn lemma_link_shape(n: NodeView)
    ensures
        starts_with(spec_link(n), scheme()),
        ws_free(n.uuid) && ws_free(n.host) ==> ws_free(spec_link(n)),
{
    let l = spec_link(n);
    let q = if n.params.len() > 0 {
        seq!['?'] + join_query(n.params)
    } else {
        Seq::empty()
    };
    let r = if n.remark.len() > 0 {
        seq!['#'] + percent_encoded(n.remark)
    } else {
        Seq::empty()
    };
    let d = decimal(n.port as nat);
    assert(l == scheme() + n.uuid + seq!['@'] + n.host + seq![':'] + d + q + r);
    assert(l.take(8) =~= scheme());
    if ws_free(n.uuid) && ws_free(n.host) {
        lemma_decimal_digits(n.port as nat);
        lemma_join_chars(n.params);
        lemma_encoded_chars(n.remark);
        assert(ws_free(scheme()));
        assert(ws_free(seq!['@']));
        assert(ws_free(seq![':']));
        assert(ws_free(d));
        assert(ws_free(q)) by {
            if n.params.len() > 0 {
                let j = join_query(n.params);
                assert forall|k: int| 0 <= k < q.len() implies !is_ws(#[trigger] q[k]) by {
                    if k > 0 {
                        assert(q[k] == j[k - 1]);
                        assert(query_char(j[k - 1]));
                    }
                }
            }
        }
        assert(ws_free(r)) by {
            if n.remark.len() > 0 {
                let e = percent_encoded(n.remark);
                assert forall|k: int| 0 <= k < r.len() implies !is_ws(#[trigger] r[k]) by {
                    if k > 0 {
                        assert(r[k] == e[k - 1]);
                        assert(is_encoded_char(e[k - 1]));
                    }
                }
            }
        }
        lemma_ws_free_concat(scheme(), n.uuid);
        lemma_ws_free_concat(scheme() + n.uuid, seq!['@']);
        lemma_ws_free_concat(scheme() + n.uuid + seq!['@'], n.host);
        lemma_ws_free_concat(scheme() + n.uuid + seq!['@'] + n.host, seq![':']);
        lemma_ws_free_concat(scheme() + n.uuid + seq!['@'] + n.host + seq![':'], d);
        lemma_ws_free_concat(scheme() + n.uuid + seq!['@'] + n.host + seq![':'] + d, q);
        lemma_ws_free_concat(scheme() + n.uuid + seq!['@'] + n.host + seq![':'] + d + q, r);
    }
}

proof fn lemma_host_lacks(a: Seq<char>, c: char)
    requires
        !a.contains(c),
    ensures
        spec_split_host_port(a) matches Ok((h, _)) ==> h.len() > 0 && !h.contains(c),
{
    if a.len() > 0 {
        lemma_index_of(a.drop_first(), ']');
    }
    crate::text::lemma_last_index_of(a, ':');
    if spec_split_host_port(a) is Ok {
        let h = spec_split_host_port(a)->Ok_0.0;
        if h.contains(c) {
            let k = choose|k: int| 0 <= k < h.len() && h[k] == c;
            if a.len() > 0 && a[0] == '[' {
                assert(h[k] == a.drop_first()[k]);
                assert(a[k + 1] == c);
            } else {
                assert(h[k] == a[k]);
            }
        }
    }
}

proof fn lemma_lacks_take(s: Seq<char>, n: int, c: char)
    requires
        0 <= n <= s.len(),
        forall|j: int| 0 <= j < n ==> s[j] != c,
    ensures
        !s.take(n).contains(c),
{
    if s.take(n).contains(c) {
        let k = choose|k: int| 0 <= k < n && s.take(n)[k] == c;
        assert(s[k] == c);
    }
}

proof fn lemma_lacks_skip(s: Seq<char>, n: int, c: char)
    requires
        0 <= n <= s.len(),
        !s.contains(c),
    ensures
        !s.skip(n).contains(c),
{
    if s.skip(n).contains(c) {
        let k = choose|k: int| 0 <= k < s.len() - n && s.skip(n)[k] == c;
        assert(s[k + n] == c);
    }
}

/// A parsed node's host is not empty and holds neither `#` nor `?`, and its
/// parameters are in key order.
pub proof fn lemma_parsed_host(link: Seq<char>)
    ensures
        spec_parse(link) matches Ok(n) ==> n.host.len() > 0 && !n.host.contains('#')
            && !n.host.contains('?') && key_sorted(n.params),
{
    crate::vless::lemma_parsed_params_sorted(link);
    let t = trim(link);
    let rest = t.skip(8);
    lemma_index_of(rest, '#');
    let main = match index_of(rest, '#') {
        Some(i) => rest.take(i),
        None => rest,
    };
    match index_of(rest, '#') {
        Some(i) => lemma_lacks_take(rest, i, '#'),
        None => {
            assert(!rest.contains('#'));
        },
    }
    lemma_index_of(main, '@');
    match index_of(main, '@') {
        Some(j) => {
            let after = main.skip(j + 1);
            lemma_lacks_skip(main, j + 1, '#');
            lemma_index_of(after, '?');
            let authority = match index_of(after, '?') {
                Some(q) => after.take(q),
                None => after,
            };
            match index_of(after, '?') {
                Some(q) => {
                    lemma_lacks_take(after, q, '?');
                    if authority.contains('#') {
                        let k = choose|k: int| 0 <= k < authority.len() && authority[k] == '#';
                        assert(after[k] == '#');
                    }
                },
                None => {
                    assert(!after.contains('?'));
                },
            }
            lemma_host_lacks(authority, '#');
            lemma_host_lacks(authority, '?');
        },
        None => {},
    }
}

} // verus!

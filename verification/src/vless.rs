//! Parsing and (re)serialization of `vless://` share links.
//!
//! A VLESS link looks like:
//! `vless://<uuid>@<host>:<port>?type=xhttp&security=reality&sni=...#<remark>`
//!
//! Every query parameter is kept, so a parsed node can be turned back into an
//! equivalent link, while the few fields the pipeline needs (transport, host,
//! port) are exposed directly.
use vstd::prelude::*;

use crate::params::{insert_sorted, key_sorted, lemma_insert_sorted_sorted, lookup, Entries, Params};
use crate::percent::{decode, encode, percent_decoded, percent_encoded};
use crate::text::{
    ascii_lower, ascii_lower_chars, chars_eq, chars_of, decimal, extend_chars, find_char,
    index_of, last_index_of, lemma_decimal_digits, lemma_decimal_lacks, lemma_index_of,
    lemma_index_of_sep, lemma_last_index_of, lemma_last_index_of_sep, parse_u16, parse_u16_chars,
    push_decimal, rfind_char, slice_copy, split, starts_with, starts_with_chars, string_of, trim,
    trim_chars,
};

verus! {

/// Why a link was rejected.
#[derive(Debug, Clone, Copy, PartialEq, Eq)]
pub enum ParseError {
    NotVless,
    MissingUuid,
    MissingPort,
    BadPort,
    EmptyHost,
}

/// The description of each error.
pub open spec fn error_text(e: ParseError) -> Seq<char> {
    match e {
        ParseError::NotVless => "not a vless:// link"@,
        ParseError::MissingUuid => "missing uuid before '@'"@,
        ParseError::MissingPort => "missing ':port'"@,
        ParseError::BadPort => "port is not a valid number"@,
        ParseError::EmptyHost => "empty host"@,
    }
}

impl ParseError {
    /// Human-readable description of the error.
    pub fn message(&self) -> (r: String)
        ensures
            r@ == error_text(*self),
    {
        let s = match self {
            ParseError::NotVless => "not a vless:// link",
            ParseError::MissingUuid => "missing uuid before '@'",
            ParseError::MissingPort => "missing ':port'",
            ParseError::BadPort => "port is not a valid number",
            ParseError::EmptyHost => "empty host",
        };
        s.to_owned()
    }
}

/// Abstract value of a node: every field as characters.
pub struct NodeView {
    pub uuid: Seq<char>,
    pub host: Seq<char>,
    pub port: u16,
    pub params: Entries,
    pub remark: Seq<char>,
}

/// A single parsed VLESS node.
#[derive(Debug, PartialEq, Eq)]
pub struct VlessNode {
    pub uuid: String,
    pub host: String,
    pub port: u16,
    /// All query parameters in their decoded form, in key order.
    pub params: Params,
    /// The remark / fragment (text after `#`), decoded.
    pub remark: String,
}

impl View for VlessNode {
    type V = NodeView;

    open spec fn view(&self) -> NodeView {
        NodeView {
            uuid: self.uuid@,
            host: self.host@,
            port: self.port,
            params: self.params@,
            remark: self.remark@,
        }
    }
}

/// The `vless://` scheme prefix.
pub open spec fn scheme() -> Seq<char> {
    seq!['v', 'l', 'e', 's', 's', ':', '/', '/']
}

/// `split_host_port`: `host:port`, or `[addr]:port` for bracketed IPv6.
pub open spec fn spec_split_host_port(a: Seq<char>) -> Result<(Seq<char>, u16), ParseError> {
    if a.len() > 0 && a[0] == '[' {
        let end = a.drop_first();
        match index_of(end, ']') {
            None => Err(ParseError::EmptyHost),
            Some(i) => {
                let addr = end.take(i);
                let after = end.skip(i + 1);
                if !(after.len() > 0 && after[0] == ':') {
                    Err(ParseError::MissingPort)
                } else {
                    match parse_u16(after.drop_first()) {
                        None => Err(ParseError::BadPort),
                        Some(p) => if addr.len() == 0 {
                            Err(ParseError::EmptyHost)
                        } else {
                            Ok((addr, p))
                        },
                    }
                }
            },
        }
    } else {
        match last_index_of(a, ':') {
            None => Err(ParseError::MissingPort),
            Some(i) => {
                let host = a.take(i);
                if host.len() == 0 {
                    Err(ParseError::EmptyHost)
                } else {
                    match parse_u16(a.skip(i + 1)) {
                        None => Err(ParseError::BadPort),
                        Some(p) => Ok((host, p)),
                    }
                }
            },
        }
    }
}

/// One `key=value` query piece, decoded (a piece without `=` is a key with
/// an empty value).
pub open spec fn param_of(piece: Seq<char>) -> (Seq<char>, Seq<char>) {
    match index_of(piece, '=') {
        Some(i) => (percent_decoded(piece.take(i)), percent_decoded(piece.skip(i + 1))),
        None => (percent_decoded(piece), Seq::<char>::empty()),
    }
}

/// Parameters from the `&`-separated pieces, skipping empty pieces; a later
/// piece with the same key replaces an earlier one.
pub open spec fn query_params(pieces: Seq<Seq<char>>) -> Entries
    decreases pieces.len(),
{
    if pieces.len() == 0 {
        Seq::empty()
    } else {
        let acc = query_params(pieces.drop_last());
        let p = pieces.last();
        if p.len() == 0 {
            acc
        } else {
            insert_sorted(acc, param_of(p).0, param_of(p).1)
        }
    }
}

/// What `VlessNode::parse` gives for a link.
pub open spec fn spec_parse(link: Seq<char>) -> Result<NodeView, ParseError> {
    let t = trim(link);
    if !starts_with(t, scheme()) {
        Err(ParseError::NotVless)
    } else {
        parse_rest(t.skip(8))
    }
}

/// The part after the scheme: the fragment after the first `#` is the remark.
pub open spec fn parse_rest(rest: Seq<char>) -> Result<NodeView, ParseError> {
    match index_of(rest, '#') {
        Some(i) => parse_main(rest.take(i), percent_decoded(rest.skip(i + 1))),
        None => parse_main(rest, Seq::<char>::empty()),
    }
}

/// The part before the fragment: the uuid runs up to the first `@`.
pub open spec fn parse_main(main: Seq<char>, remark: Seq<char>) -> Result<NodeView, ParseError> {
    match index_of(main, '@') {
        None => Err(ParseError::MissingUuid),
        Some(j) => if j == 0 {
            Err(ParseError::MissingUuid)
        } else {
            parse_authority(percent_decoded(main.take(j)), main.skip(j + 1), remark)
        },
    }
}

/// The part after the uuid: authority, then the query after the first `?`.
pub open spec fn parse_authority(uuid: Seq<char>, after: Seq<char>, remark: Seq<char>) -> Result<
    NodeView,
    ParseError,
> {
    let (authority, query) = match index_of(after, '?') {
        Some(q) => (after.take(q), after.skip(q + 1)),
        None => (after, Seq::<char>::empty()),
    };
    match spec_split_host_port(authority) {
        Err(e) => Err(e),
        Ok((host, port)) => Ok(
            NodeView { uuid, host, port, params: query_params(split(query, '&')), remark },
        ),
    }
}

proof fn lemma_query_params_sorted(pieces: Seq<Seq<char>>)
    ensures
        key_sorted(query_params(pieces)),
    decreases pieces.len(),
{
    if pieces.len() > 0 {
        lemma_query_params_sorted(pieces.drop_last());
        let p = pieces.last();
        if p.len() > 0 {
            lemma_insert_sorted_sorted(query_params(pieces.drop_last()), param_of(p).0, param_of(p).1);
        }
    }
}

/// A parsed node's parameters are in ascending key order, each key once.
pub proof fn lemma_parsed_params_sorted(link: Seq<char>)
    ensures
        spec_parse(link) matches Ok(n) ==> key_sorted(n.params),
{
    let t = trim(link);
    let rest = t.skip(8);
    let (main, remark) = match index_of(rest, '#') {
        Some(i) => (rest.take(i), percent_decoded(rest.skip(i + 1))),
        None => (rest, Seq::<char>::empty()),
    };
    match index_of(main, '@') {
        Some(j) => {
            let after = main.skip(j + 1);
            let query = match index_of(after, '?') {
                Some(q) => after.skip(q + 1),
                None => Seq::<char>::empty(),
            };
            lemma_query_params_sorted(split(query, '&'));
        },
        None => {},
    }
}

/// Abstract value of a parse result.
pub open spec fn result_view(r: Result<VlessNode, ParseError>) -> Result<NodeView, ParseError> {
    match r {
        Ok(n) => Ok(n@),
        Err(e) => Err(e),
    }
}

/// One query piece as the link writes it: `key=value`, both encoded.
pub open spec fn query_piece(e: (Seq<char>, Seq<char>)) -> Seq<char> {
    percent_encoded(e.0) + seq!['='] + percent_encoded(e.1)
}

/// The query pieces of `ps`, in order, joined by `&`.
pub open spec fn join_query(ps: Entries) -> Seq<char>
    decreases ps.len(),
{
    if ps.len() == 0 {
        Seq::empty()
    } else if ps.len() == 1 {
        query_piece(ps[0])
    } else {
        join_query(ps.drop_last()) + seq!['&'] + query_piece(ps.last())
    }
}

/// The link a node serializes to.
pub open spec fn spec_link(n: NodeView) -> Seq<char> {
    scheme() + n.uuid + seq!['@'] + n.host + seq![':'] + decimal(n.port as nat) + (if n.params.len()
        > 0 {
        seq!['?'] + join_query(n.params)
    } else {
        Seq::empty()
    }) + (if n.remark.len() > 0 {
        seq!['#'] + percent_encoded(n.remark)
    } else {
        Seq::empty()
    })
}

/// The transport (`type` parameter), `tcp` when absent.
pub open spec fn spec_network(p: Entries) -> Seq<char> {
    match lookup(p, "type"@) {
        Some(v) => v,
        None => "tcp"@,
    }
}

/// The security layer (`security` parameter), `none` when absent.
pub open spec fn spec_security(p: Entries) -> Seq<char> {
    match lookup(p, "security"@) {
        Some(v) => v,
        None => "none"@,
    }
}

/// Whether the transport is XHTTP (`splithttp` is its former name).
pub open spec fn spec_is_xhttp(p: Entries) -> bool {
    spec_network(p) == "xhttp"@ || spec_network(p) == "splithttp"@
}

/// `uuid@host:port|network|security`, the host in ASCII lower case.
pub open spec fn spec_dedup_key(n: NodeView) -> Seq<char> {
    n.uuid + seq!['@'] + ascii_lower(n.host) + seq![':'] + decimal(n.port as nat) + seq!['|']
        + spec_network(n.params) + seq!['|'] + spec_security(n.params)
}

/// A node is XHTTP exactly when its `type` parameter is `xhttp` or
/// `splithttp`; a node without `type` (TCP) or with any other transport,
/// such as `ws`, `grpc` or `tcp`, is not.
pub proof fn lemma_is_xhttp_exactly(p: Entries)
    ensures
        spec_is_xhttp(p) <==> (lookup(p, "type"@) == Some("xhttp"@) || lookup(p, "type"@) == Some(
            "splithttp"@,
        )),
        lookup(p, "type"@) == Some("ws"@) ==> !spec_is_xhttp(p),
        lookup(p, "type"@) is None ==> !spec_is_xhttp(p),
{
    reveal_strlit("tcp");
    reveal_strlit("ws");
    reveal_strlit("xhttp");
    reveal_strlit("splithttp");
    assert("tcp"@ != "xhttp"@ && "tcp"@ != "splithttp"@) by {
        assert("tcp"@.len() != "xhttp"@.len() && "tcp"@.len() != "splithttp"@.len());
    }
    assert("ws"@ != "xhttp"@ && "ws"@ != "splithttp"@) by {
        assert("ws"@.len() != "xhttp"@.len() && "ws"@.len() != "splithttp"@.len());
    }
}

/// A query piece `k=v` whose key holds no `=` gives the decoded key and the
/// decoded value, whatever the value holds (a value may contain `=`); a
/// piece without `=` is a key with an empty value.
pub proof fn lemma_param_of_split(k: Seq<char>, v: Seq<char>)
    ensures
        !k.contains('=') ==> param_of(k + seq!['='] + v) == (percent_decoded(k), percent_decoded(v)),
        !k.contains('=') ==> param_of(k) == (percent_decoded(k), Seq::<char>::empty()),
{
    if !k.contains('=') {
        lemma_index_of_sep(k, v, '=');
        crate::text::lemma_index_of_absent(k, '=');
    }
}

/// Parsing ignores surrounding white space, and a link is rejected as not
/// VLESS exactly when its trimmed text does not begin with `vless://`.
pub proof fn lemma_parse_trimmed(link: Seq<char>)
    ensures
        spec_parse(link) == spec_parse(trim(link)),
        (spec_parse(link) == Err::<NodeView, ParseError>(ParseError::NotVless)) == !starts_with(
            trim(link),
            scheme(),
        ),
{
    crate::text::lemma_trim_idempotent(link);
}

/// The dedup key identifies exactly the uuid, the host up to ASCII case,
/// the port, the transport and the security layer (the remark and the other
/// parameters never affect it), when neither uuid holds `@` and neither
/// transport nor security holds `|`.
pub proof fn lemma_dedup_key_identity(a: NodeView, b: NodeView)
    requires
        !a.uuid.contains('@'),
        !b.uuid.contains('@'),
        !spec_network(a.params).contains('|'),
        !spec_network(b.params).contains('|'),
        !spec_security(a.params).contains('|'),
        !spec_security(b.params).contains('|'),
    ensures
        spec_dedup_key(a) == spec_dedup_key(b) <==> (a.uuid == b.uuid && ascii_lower(a.host)
            == ascii_lower(b.host) && a.port == b.port && spec_network(a.params) == spec_network(
            b.params,
        ) && spec_security(a.params) == spec_security(b.params)),
{
    if spec_dedup_key(a) == spec_dedup_key(b) {
        let da = decimal(a.port as nat);
        let db = decimal(b.port as nat);
        let ra = ascii_lower(a.host) + seq![':'] + da;
        let rb = ascii_lower(b.host) + seq![':'] + db;
        let pa = a.uuid + seq!['@'] + ra;
        let pb = b.uuid + seq!['@'] + rb;
        let xa = pa + seq!['|'] + spec_network(a.params);
        let xb = pb + seq!['|'] + spec_network(b.params);
        let k = spec_dedup_key(a);
        assert(k =~= xa + seq!['|'] + spec_security(a.params));
        assert(spec_dedup_key(b) =~= xb + seq!['|'] + spec_security(b.params));
        lemma_last_index_of_sep(xa, spec_security(a.params), '|');
        lemma_last_index_of_sep(xb, spec_security(b.params), '|');
        assert(xa == xb);
        lemma_last_index_of_sep(pa, spec_network(a.params), '|');
        lemma_last_index_of_sep(pb, spec_network(b.params), '|');
        assert(pa == pb);
        lemma_index_of_sep(a.uuid, ra, '@');
        lemma_index_of_sep(b.uuid, rb, '@');
        assert(a.uuid == b.uuid);
        assert(ra == rb);
        lemma_decimal_lacks(a.port as nat, ':');
        lemma_decimal_lacks(b.port as nat, ':');
        lemma_last_index_of_sep(ascii_lower(a.host), da, ':');
        lemma_last_index_of_sep(ascii_lower(b.host), db, ':');
        assert(da == db);
        lemma_decimal_digits(a.port as nat);
        lemma_decimal_digits(b.port as nat);
    }
}

/// Decoded text of the given characters.
fn decode_chars(cs: &[char]) -> (r: String)
    ensures
        r@ == percent_decoded(cs@),
        cs@.len() > 0 ==> r@.len() > 0,
{
    let s = string_of(cs);
    decode(s.as_str())
}

/// Encoded characters of the given text.
fn encode_chars(s: &str) -> (r: Vec<char>)
    ensures
        r@ == percent_encoded(s@),
{
    let e = encode(s);
    chars_of(e.as_str())
}

/// Splits `host:port`, supporting bracketed IPv6 literals like `[::1]:443`.
fn split_host_port(a: &[char]) -> (r: Result<(String, u16), ParseError>)
    ensures
        match r {
            Ok((h, p)) => spec_split_host_port(a@) == Ok::<(Seq<char>, u16), ParseError>((h@, p)),
            Err(e) => spec_split_host_port(a@) == Err::<(Seq<char>, u16), ParseError>(e),
        },
{
    if a.len() > 0 && a[0] == '[' {
        let end = slice_copy(a, 1, a.len());
        assert(end@ =~= a@.drop_first());
        proof {
            lemma_index_of(end@, ']');
        }
        let i = match find_char(&end, ']') {
            Some(i) => i,
            None => return Err(ParseError::EmptyHost),
        };
        let addr = slice_copy(&end, 0, i);
        let after = slice_copy(&end, i + 1, end.len());
        assert(addr@ =~= end@.take(i as int));
        assert(after@ =~= end@.skip(i + 1));
        if !(after.len() > 0 && after[0] == ':') {
            return Err(ParseError::MissingPort);
        }
        let digits = slice_copy(&after, 1, after.len());
        assert(digits@ =~= after@.drop_first());
        let port = match parse_u16_chars(&digits) {
            Some(p) => p,
            None => return Err(ParseError::BadPort),
        };
        if addr.len() == 0 {
            return Err(ParseError::EmptyHost);
        }
        return Ok((string_of(&addr), port));
    }
    proof {
        lemma_last_index_of(a@, ':');
    }
    let i = match rfind_char(a, ':') {
        Some(i) => i,
        None => return Err(ParseError::MissingPort),
    };
    let host = slice_copy(a, 0, i);
    assert(host@ =~= a@.take(i as int));
    if host.len() == 0 {
        return Err(ParseError::EmptyHost);
    }
    let digits = slice_copy(a, i + 1, a.len());
    assert(digits@ =~= a@.skip(i + 1));
    let port = match parse_u16_chars(&digits) {
        Some(p) => p,
        None => return Err(ParseError::BadPort),
    };
    Ok((string_of(&host), port))
}

/// Adds one query piece to `params`.
fn add_query_piece(params: &mut Params, piece: &[char])
    requires
        piece@.len() > 0,
    ensures
        final(params)@ == insert_sorted(old(params)@, param_of(piece@).0, param_of(piece@).1),
{
    proof {
        lemma_index_of(piece@, '=');
    }
    match find_char(piece, '=') {
        Some(i) => {
            let k = slice_copy(piece, 0, i);
            let v = slice_copy(piece, i + 1, piece.len());
            assert(k@ =~= piece@.take(i as int));
            assert(v@ =~= piece@.skip(i + 1));
            let key = decode_chars(&k);
            let value = decode_chars(&v);
            params.insert(key, value);
        },
        None => {
            let key = decode_chars(piece);
            let value = String::new();
            params.insert(key, value);
        },
    }
}

/// Parameters of a query string.
fn parse_query(query: &[char]) -> (r: Params)
    ensures
        r@ == query_params(split(query@, '&')),
{
    let mut params = Params::new();
    let mut rem: Vec<char> = slice_copy(query, 0, query.len());
    assert(rem@ =~= query@);
    let ghost mut done: Seq<Seq<char>> = Seq::empty();
    assert(done + split(rem@, '&') =~= split(query@, '&'));
    loop
        invariant_except_break
            split(query@, '&') == done + split(rem@, '&'),
            params@ == query_params(done),
        ensures
            params@ == query_params(split(query@, '&')),
        decreases rem@.len(),
    {
        proof {
            lemma_index_of(rem@, '&');
        }
        match find_char(&rem, '&') {
            Some(i) => {
                let piece = slice_copy(&rem, 0, i);
                let next = slice_copy(&rem, i + 1, rem.len());
                assert(piece@ =~= rem@.take(i as int));
                assert(next@ =~= rem@.skip(i + 1));
                if piece.len() > 0 {
                    add_query_piece(&mut params, &piece);
                }
                proof {
                    assert(split(rem@, '&') == seq![piece@] + split(next@, '&'));
                    assert(done.push(piece@).drop_last() =~= done);
                    assert(done + split(rem@, '&') =~= done.push(piece@) + split(next@, '&'));
                    done = done.push(piece@);
                }
                rem = next;
            },
            None => {
                if rem.len() > 0 {
                    add_query_piece(&mut params, &rem);
                }
                proof {
                    assert(split(rem@, '&') == seq![rem@]);
                    assert(done.push(rem@).drop_last() =~= done);
                    assert(done + split(rem@, '&') =~= done.push(rem@));
                }
                break ;
            },
        }
    }
    params
}

impl VlessNode {
    /// Transport type (`type` query param). Defaults to `tcp` when absent,
    /// matching Xray/sing-box behaviour.
    pub fn network(&self) -> (r: &str)
        ensures
            r@ == spec_network(self.params@),
    {
        match self.params.get("type") {
            Some(v) => v.as_str(),
            None => "tcp",
        }
    }

    /// Security layer (`security` query param), e.g. `tls`, `reality`, `none`.
    pub fn security(&self) -> (r: &str)
        ensures
            r@ == spec_security(self.params@),
    {
        match self.params.get("security") {
            Some(v) => v.as_str(),
            None => "none",
        }
    }

    /// Returns true when the node uses the XHTTP transport. `splithttp` is the
    /// former name of the same transport and is treated as an alias.
    pub fn is_xhttp(&self) -> (r: bool)
        ensures
            r == spec_is_xhttp(self.params@),
    {
        let n = chars_of(self.network());
        chars_eq(&n, &chars_of("xhttp")) || chars_eq(&n, &chars_of("splithttp"))
    }

    /// A stable identity used for de-duplication.
    pub fn dedup_key(&self) -> (r: String)
        ensures
            r@ == spec_dedup_key(self@),
    {
        let mut out = chars_of(self.uuid.as_str());
        out.push('@');
        let host = ascii_lower_chars(&chars_of(self.host.as_str()));
        extend_chars(&mut out, &host);
        out.push(':');
        push_decimal(&mut out, self.port as u128);
        out.push('|');
        extend_chars(&mut out, &chars_of(self.network()));
        out.push('|');
        extend_chars(&mut out, &chars_of(self.security()));
        assert(out@ =~= spec_dedup_key(self@));
        string_of(&out)
    }

    /// A copy of the node.
    pub fn duplicate(&self) -> (r: VlessNode)
        ensures
            r@ == self@,
    {
        VlessNode {
            uuid: self.uuid.clone(),
            host: self.host.clone(),
            port: self.port,
            params: self.params.duplicate(),
            remark: self.remark.clone(),
        }
    }

    /// Replace the human-readable remark.
    pub fn set_remark(&mut self, remark: String)
        ensures
            final(self)@ == (NodeView { remark: remark@, ..old(self)@ }),
    {
        self.remark = remark;
    }

    /// Parse a single `vless://` link.
    pub fn parse(link: &str) -> (r: Result<VlessNode, ParseError>)
        ensures
            result_view(r) == spec_parse(link@),
            r matches Ok(n) ==> key_sorted(n.params@),
            r matches Ok(n) ==> n.uuid@.len() > 0 && n.host@.len() > 0,
            r matches Ok(n) ==> (!n.uuid@.contains('@') && !n.uuid@.contains('#')
                && !n.uuid@.contains('%') && n.host@[0] != '[' ==> spec_parse(spec_link(n@))
                == Ok::<NodeView, ParseError>(n@)),
    {
        let all = chars_of(link);
        let t = trim_chars(&all);
        let prefix = vec!['v', 'l', 'e', 's', 's', ':', '/', '/'];
        assert(prefix@ =~= scheme());
        if !starts_with_chars(&t, &prefix) {
            return Err(ParseError::NotVless);
        }
        let rest = slice_copy(&t, 8, t.len());
        assert(rest@ =~= t@.skip(8));
        proof {
            lemma_index_of(rest@, '#');
        }
        let (main, remark) = match find_char(&rest, '#') {
            Some(i) => {
                let m = slice_copy(&rest, 0, i);
                let r = slice_copy(&rest, i + 1, rest.len());
                assert(m@ =~= rest@.take(i as int));
                assert(r@ =~= rest@.skip(i + 1));
                (m, decode_chars(&r))
            },
            None => (rest, String::new()),
        };
        proof {
            lemma_index_of(main@, '@');
        }
        let j = match find_char(&main, '@') {
            Some(j) => j,
            None => return Err(ParseError::MissingUuid),
        };
        if j == 0 {
            return Err(ParseError::MissingUuid);
        }
        let uuid = slice_copy(&main, 0, j);
        let after = slice_copy(&main, j + 1, main.len());
        assert(uuid@ =~= main@.take(j as int));
        assert(after@ =~= main@.skip(j + 1));
        proof {
            lemma_index_of(after@, '?');
        }
        let (authority, query) = match find_char(&after, '?') {
            Some(q) => {
                let a = slice_copy(&after, 0, q);
                let b = slice_copy(&after, q + 1, after.len());
                assert(a@ =~= after@.take(q as int));
                assert(b@ =~= after@.skip(q + 1));
                (a, b)
            },
            None => (after, Vec::new()),
        };
        let (host, port) = split_host_port(&authority)?;
        let params = parse_query(&query);
        proof {
            lemma_query_params_sorted(split(query@, '&'));
        }
        let node = VlessNode { uuid: decode_chars(&uuid), host, port, params, remark };
        proof {
            crate::roundtrip::lemma_parsed_host(link@);
            if !node.uuid@.contains('@') && !node.uuid@.contains('#') && !node.uuid@.contains('%')
                && node.host@[0] != '[' {
                crate::roundtrip::lemma_link_round_trip(node@);
            }
        }
        Ok(node)
    }

    /// Serialize back into a `vless://` link.
    pub fn to_link(&self) -> (r: String)
        ensures
            r@ == spec_link(self@),
            key_sorted(self.params@),
    {
        let mut out = vec!['v', 'l', 'e', 's', 's', ':', '/', '/'];
        extend_chars(&mut out, &chars_of(self.uuid.as_str()));
        out.push('@');
        extend_chars(&mut out, &chars_of(self.host.as_str()));
        out.push(':');
        push_decimal(&mut out, self.port as u128);
        let ghost head = out@;
        assert(head =~= scheme() + self.uuid@ + seq!['@'] + self.host@ + seq![':'] + decimal(
            self.port as nat,
        ));
        let n = self.params.len();
        if n > 0 {
            out.push('?');
            let mut i: usize = 0;
            while i < n
                invariant
                    n == self.params@.len(),
                    0 <= i <= n,
                    out@ == head + seq!['?'] + join_query(self.params@.take(i as int)),
                decreases n - i,
            {
                let ghost before = out@;
                if i > 0 {
                    out.push('&');
                }
                let (k, v) = self.params.entry(i);
                extend_chars(&mut out, &encode_chars(k.as_str()));
                out.push('=');
                extend_chars(&mut out, &encode_chars(v.as_str()));
                proof {
                    let ps = self.params@.take(i + 1);
                    assert(ps.drop_last() =~= self.params@.take(i as int));
                    assert(ps.last() == self.params@[i as int]);
                    if i == 0 {
                        assert(ps.len() == 1);
                        assert(out@ =~= head + seq!['?'] + join_query(ps));
                    } else {
                        assert(out@ =~= head + seq!['?'] + join_query(ps));
                    }
                }
                i = i + 1;
            }
            assert(self.params@.take(n as int) =~= self.params@);
        }
        let ghost mid = out@;
        if !self.remark.as_str().is_empty() {
            out.push('#');
            extend_chars(&mut out, &encode_chars(self.remark.as_str()));
        }
        assert(out@ =~= spec_link(self@));
        string_of(&out)
    }
}

} // verus!

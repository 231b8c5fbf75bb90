//! Minimal sing-box config generation for the optional real-throughput test.
//!
//! The config has a local SOCKS inbound and a single VLESS outbound mapped
//! from a [`VlessNode`], so traffic can be routed through the node and a
//! download speed measured against a test URL. The config is built here as
//! plain values; rendering it as JSON is left to the caller.
use vstd::prelude::*;

use crate::output::opt_view;
use crate::params::lookup;
use crate::text::{chars_of, find_char, lemma_index_of, slice_copy, split, string_of, strings_view};
use crate::vless::{spec_is_xhttp, spec_security, VlessNode};

verus! {

/// uTLS settings.
pub struct Utls {
    pub enabled: bool,
    pub fingerprint: String,
}

/// REALITY settings.
pub struct Reality {
    pub enabled: bool,
    pub public_key: Option<String>,
    pub short_id: Option<String>,
}

/// TLS settings of an outbound.
pub struct Tls {
    pub enabled: bool,
    pub server_name: String,
    pub alpn: Option<Vec<String>>,
    pub utls: Option<Utls>,
    pub reality: Option<Reality>,
}

/// XHTTP transport settings.
pub struct Transport {
    /// Always `xhttp`.
    pub kind: String,
    pub path: Option<String>,
    pub host: Option<String>,
    pub mode: Option<String>,
}

/// A sing-box `vless` outbound.
pub struct Outbound {
    /// Always `vless`.
    pub kind: String,
    /// Always `proxy`.
    pub tag: String,
    pub server: String,
    pub server_port: u16,
    pub uuid: String,
    pub flow: Option<String>,
    pub tls: Option<Tls>,
    pub transport: Option<Transport>,
}

/// A local SOCKS inbound.
pub struct SocksInbound {
    /// Always `socks`.
    pub kind: String,
    /// Always `socks-in`.
    pub tag: String,
    /// Always `127.0.0.1`.
    pub listen: String,
    pub listen_port: u16,
}

/// A complete test configuration.
pub struct TestConfig {
    /// Always `error`.
    pub log_level: String,
    pub inbounds: Vec<SocksInbound>,
    pub outbounds: Vec<Outbound>,
}

/// Abstract TLS settings: server name, ALPN list, uTLS fingerprint and
/// REALITY (public key, short id).
pub struct TlsView {
    pub server_name: Seq<char>,
    pub alpn: Option<Seq<Seq<char>>>,
    pub utls: Option<Seq<char>>,
    pub reality: Option<(Option<Seq<char>>, Option<Seq<char>>)>,
}

/// Abstract transport settings: path, host and mode.
pub struct TransportView {
    pub path: Option<Seq<char>>,
    pub host: Option<Seq<char>>,
    pub mode: Option<Seq<char>>,
}

/// The value of `key` when present and not empty.
pub open spec fn nonempty_param(p: Seq<(Seq<char>, Seq<char>)>, key: Seq<char>) -> Option<Seq<char>> {
    match lookup(p, key) {
        Some(v) => if v.len() > 0 {
            Some(v)
        } else {
            None
        },
        None => None,
    }
}

/// The non-empty pieces, in order.
pub open spec fn nonempty_pieces(ps: Seq<Seq<char>>) -> Seq<Seq<char>>
    decreases ps.len(),
{
    if ps.len() == 0 {
        Seq::empty()
    } else if ps.last().len() > 0 {
        nonempty_pieces(ps.drop_last()).push(ps.last())
    } else {
        nonempty_pieces(ps.drop_last())
    }
}

/// TLS settings of a node: present for `tls` and `reality`. The server name
/// is `sni`, else the `host` parameter, else the node's host; ALPN is the
/// non-empty comma-separated parts of `alpn`; uTLS is set from a non-empty
/// `fp`; REALITY carries `pbk` and `sid`.
pub open spec fn spec_tls(host: Seq<char>, p: Seq<(Seq<char>, Seq<char>)>) -> Option<TlsView> {
    let security = spec_security(p);
    if security != "tls"@ && security != "reality"@ {
        None
    } else {
        let server_name = match lookup(p, "sni"@) {
            Some(s) => s,
            None => match lookup(p, "host"@) {
                Some(h) => h,
                None => host,
            },
        };
        let alpn = match lookup(p, "alpn"@) {
            Some(a) => {
                let parts = nonempty_pieces(split(a, ','));
                if parts.len() > 0 {
                    Some(parts)
                } else {
                    None
                }
            },
            None => None,
        };
        let reality = if security == "reality"@ {
            Some((lookup(p, "pbk"@), lookup(p, "sid"@)))
        } else {
            None
        };
        Some(TlsView { server_name, alpn, utls: nonempty_param(p, "fp"@), reality })
    }
}

/// Transport settings of a node: present for XHTTP.
pub open spec fn spec_transport(p: Seq<(Seq<char>, Seq<char>)>) -> Option<TransportView> {
    if spec_is_xhttp(p) {
        Some(
            TransportView {
                path: lookup(p, "path"@),
                host: nonempty_param(p, "host"@),
                mode: nonempty_param(p, "mode"@),
            },
        )
    } else {
        None
    }
}

/// Texts of an optional list of strings.
pub open spec fn opt_strings_view(v: Option<Vec<String>>) -> Option<Seq<Seq<char>>> {
    match v {
        Some(l) => Some(strings_view(l@)),
        None => None,
    }
}

/// Abstract value of TLS settings.
pub open spec fn tls_view(t: Tls) -> TlsView {
    TlsView {
        server_name: t.server_name@,
        alpn: opt_strings_view(t.alpn),
        utls: match t.utls {
            Some(u) => Some(u.fingerprint@),
            None => None,
        },
        reality: match t.reality {
            Some(r) => Some((opt_view(r.public_key), opt_view(r.short_id))),
            None => None,
        },
    }
}

/// Flags that are always set.
pub open spec fn tls_flags(t: Tls) -> bool {
    &&& t.enabled
    &&& t.utls matches Some(u) ==> u.enabled
    &&& t.reality matches Some(r) ==> r.enabled
}

/// Abstract value of optional TLS settings.
pub open spec fn opt_tls_view(t: Option<Tls>) -> Option<TlsView> {
    match t {
        Some(t) => Some(tls_view(t)),
        None => None,
    }
}

/// Abstract value of optional transport settings.
pub open spec fn opt_transport_view(t: Option<Transport>) -> Option<TransportView> {
    match t {
        Some(t) => Some(TransportView { path: opt_view(t.path), host: opt_view(t.host), mode: opt_view(t.mode) }),
        None => None,
    }
}

/// What `outbound_from_node` builds.
pub open spec fn outbound_matches(o: Outbound, n: VlessNode) -> bool {
    &&& o.kind@ == "vless"@
    &&& o.tag@ == "proxy"@
    &&& o.server@ == n.host@
    &&& o.server_port == n.port
    &&& o.uuid@ == n.uuid@
    &&& opt_view(o.flow) == nonempty_param(n.params@, "flow"@)
    &&& opt_tls_view(o.tls) == spec_tls(n.host@, n.params@)
    &&& o.tls matches Some(t) ==> tls_flags(t)
    &&& opt_transport_view(o.transport) == spec_transport(n.params@)
    &&& o.transport matches Some(t) ==> t.kind@ == "xhttp"@
}

/// TLS settings by the link's own parameters: they are present exactly for
/// `security=tls` and `security=reality`; the server name is `sni`, else
/// the `host` parameter, else the node's host; a REALITY node carries the
/// `pbk` parameter as its public key and the `sid` parameter as its short id,
/// and a TLS node carries no REALITY settings.
pub proof fn lemma_tls_by_parameters(host: Seq<char>, p: Seq<(Seq<char>, Seq<char>)>)
    ensures
        spec_tls(host, p) is Some <==> (lookup(p, "security"@) == Some("tls"@) || lookup(
            p,
            "security"@,
        ) == Some("reality"@)),
        spec_tls(host, p) matches Some(t) ==> t.server_name == match lookup(p, "sni"@) {
            Some(s) => s,
            None => match lookup(p, "host"@) {
                Some(h) => h,
                None => host,
            },
        },
        lookup(p, "security"@) == Some("reality"@) ==> (spec_tls(host, p) matches Some(t)
            && t.reality == Some((lookup(p, "pbk"@), lookup(p, "sid"@)))),
        lookup(p, "security"@) == Some("tls"@) ==> (spec_tls(host, p) matches Some(t)
            && t.reality is None),
        spec_tls(host, p) matches Some(t) ==> t.utls == match lookup(p, "fp"@) {
            Some(f) => if f.len() > 0 {
                Some(f)
            } else {
                None
            },
            None => None,
        },
{
    reveal_strlit("none");
    reveal_strlit("tls");
    reveal_strlit("reality");
    assert("none"@ != "tls"@ && "none"@ != "reality"@ && "tls"@ != "reality"@) by {
        assert("none"@.len() != "tls"@.len() && "none"@.len() != "reality"@.len() && "tls"@.len()
            != "reality"@.len());
    }
}

/// Transport settings by the link's own parameters: present exactly for an
/// XHTTP node (`type` is `xhttp` or `splithttp`), with the `path` parameter
/// as path and the non-empty `host` and `mode` parameters as host and mode.
pub proof fn lemma_transport_by_parameters(p: Seq<(Seq<char>, Seq<char>)>)
    ensures
        spec_transport(p) is Some <==> (lookup(p, "type"@) == Some("xhttp"@) || lookup(
            p,
            "type"@,
        ) == Some("splithttp"@)),
        spec_transport(p) matches Some(t) ==> t.path == lookup(p, "path"@) && t.host == match lookup(
            p,
            "host"@,
        ) {
            Some(h) => if h.len() > 0 {
                Some(h)
            } else {
                None
            },
            None => None,
        } && t.mode == match lookup(p, "mode"@) {
            Some(m) => if m.len() > 0 {
                Some(m)
            } else {
                None
            },
            None => None,
        },
{
    crate::vless::lemma_is_xhttp_exactly(p);
}

/// A copy of an optional string.
fn clone_opt(s: Option<&String>) -> (r: Option<String>)
    ensures
        opt_view(r) == match s {
            Some(t) => Some(t@),
            None => None::<Seq<char>>,
        },
{
    match s {
        Some(t) => Some(t.clone()),
        None => None,
    }
}

/// A copy of an optional string when it is not empty.
fn clone_nonempty(s: Option<&String>) -> (r: Option<String>)
    ensures
        opt_view(r) == match s {
            Some(t) => if t@.len() > 0 {
                Some(t@)
            } else {
                None
            },
            None => None::<Seq<char>>,
        },
{
    match s {
        Some(t) => if t.as_str().is_empty() {
            None
        } else {
            Some(t.clone())
        },
        None => None,
    }
}

/// The non-empty comma-separated parts of a text.
fn alpn_parts(a: &str) -> (r: Vec<String>)
    ensures
        strings_view(r@) == nonempty_pieces(split(a@, ',')),
{
    let cs = chars_of(a);
    let mut out: Vec<String> = Vec::new();
    let mut rem: Vec<char> = slice_copy(&cs, 0, cs.len());
    assert(rem@ =~= a@);
    let ghost mut done: Seq<Seq<char>> = Seq::empty();
    assert(done + split(rem@, ',') =~= split(a@, ','));
    assert(strings_view(out@) =~= Seq::<Seq<char>>::empty());
    loop
        invariant_except_break
            split(a@, ',') == done + split(rem@, ','),
            strings_view(out@) == nonempty_pieces(done),
        ensures
            strings_view(out@) == nonempty_pieces(split(a@, ',')),
        decreases rem@.len(),
    {
        proof {
            lemma_index_of(rem@, ',');
        }
        let (piece, next, last) = match find_char(&rem, ',') {
            Some(i) => {
                let piece = slice_copy(&rem, 0, i);
                let next = slice_copy(&rem, i + 1, rem.len());
                assert(piece@ =~= rem@.take(i as int));
                assert(next@ =~= rem@.skip(i + 1));
                assert(split(rem@, ',') == seq![piece@] + split(next@, ','));
                (piece, next, false)
            },
            None => {
                assert(split(rem@, ',') == seq![rem@]);
                (slice_copy(&rem, 0, rem.len()), Vec::new(), true)
            },
        };
        let ghost before = strings_view(out@);
        if piece.len() > 0 {
            out.push(string_of(&piece));
            assert(strings_view(out@) =~= before.push(piece@));
        }
        proof {
            assert(done.push(piece@).drop_last() =~= done);
            if last {
                assert(piece@ =~= rem@);
                assert(done + split(rem@, ',') =~= done.push(piece@));
            } else {
                assert(done + split(rem@, ',') =~= done.push(piece@) + split(next@, ','));
            }
            done = done.push(piece@);
        }
        if last {
            break ;
        }
        rem = next;
    }
    out
}

/// Whether `s` is the text of the literal `lit`.
fn same_text(s: &str, lit: &str) -> (r: bool)
    ensures
        r == (s@ == lit@),
{
    crate::text::chars_eq(&chars_of(s), &chars_of(lit))
}

fn tls_block(node: &VlessNode) -> (r: Option<Tls>)
    ensures
        opt_tls_view(r) == spec_tls(node.host@, node.params@),
        r matches Some(t) ==> tls_flags(t),
{
    let security = node.security();
    let is_tls = same_text(security, "tls");
    let is_reality = same_text(security, "reality");
    if !is_tls && !is_reality {
        return None;
    }
    let server_name = match node.params.get("sni") {
        Some(s) => s.clone(),
        None => match node.params.get("host") {
            Some(h) => h.clone(),
            None => node.host.clone(),
        },
    };
    let alpn = match node.params.get("alpn") {
        Some(a) => {
            let parts = alpn_parts(a.as_str());
            if parts.len() > 0 {
                Some(parts)
            } else {
                None
            }
        },
        None => None,
    };
    let utls = match clone_nonempty(node.params.get("fp")) {
        Some(fp) => Some(Utls { enabled: true, fingerprint: fp }),
        None => None,
    };
    let reality = if is_reality {
        Some(
            Reality {
                enabled: true,
                public_key: clone_opt(node.params.get("pbk")),
                short_id: clone_opt(node.params.get("sid")),
            },
        )
    } else {
        None
    };
    Some(Tls { enabled: true, server_name, alpn, utls, reality })
}

fn transport_block(node: &VlessNode) -> (r: Option<Transport>)
    ensures
        opt_transport_view(r) == spec_transport(node.params@),
        r matches Some(t) ==> t.kind@ == "xhttp"@,
{
    if node.is_xhttp() {
        Some(
            Transport {
                kind: "xhttp".to_owned(),
                path: clone_opt(node.params.get("path")),
                host: clone_nonempty(node.params.get("host")),
                mode: clone_nonempty(node.params.get("mode")),
            },
        )
    } else {
        None
    }
}

/// Map a VLESS node into a sing-box `vless` outbound object.
pub fn outbound_from_node(node: &VlessNode) -> (r: Outbound)
    ensures
        outbound_matches(r, *node),
{
    Outbound {
        kind: "vless".to_owned(),
        tag: "proxy".to_owned(),
        server: node.host.clone(),
        server_port: node.port,
        uuid: node.uuid.clone(),
        flow: clone_nonempty(node.params.get("flow")),
        tls: tls_block(node),
        transport: transport_block(node),
    }
}

/// Build a sing-box config that exposes a SOCKS proxy on
/// `127.0.0.1:<socks_port>` routed through `node`.
pub fn build_test_config(node: &VlessNode, socks_port: u16) -> (r: TestConfig)
    ensures
        r.log_level@ == "error"@,
        r.inbounds@.len() == 1,
        r.inbounds@[0].kind@ == "socks"@,
        r.inbounds@[0].tag@ == "socks-in"@,
        r.inbounds@[0].listen@ == "127.0.0.1"@,
        r.inbounds@[0].listen_port == socks_port,
        r.outbounds@.len() == 1,
        outbound_matches(r.outbounds@[0], *node),
{
    let inbound = SocksInbound {
        kind: "socks".to_owned(),
        tag: "socks-in".to_owned(),
        listen: "127.0.0.1".to_owned(),
        listen_port: socks_port,
    };
    TestConfig {
        log_level: "error".to_owned(),
        inbounds: vec![inbound],
        outbounds: vec![outbound_from_node(node)],
    }
}

} // verus!

use hiddify_vless_xhttp_parser::vless::{ParseError, VlessNode};

#[test]
fn parses_xhttp_reality_link() {
    let link = "vless://11111111-2222-3333-4444-555555555555@cdn.example.com:443?type=xhttp&security=reality&sni=vk.com&pbk=abc&fp=chrome&path=%2Fvideo#My%20Node";
    let n = VlessNode::parse(link).unwrap();
    assert_eq!(n.uuid, "11111111-2222-3333-4444-555555555555");
    assert_eq!(n.host, "cdn.example.com");
    assert_eq!(n.port, 443);
    assert_eq!(n.network(), "xhttp");
    assert_eq!(n.security(), "reality");
    assert_eq!(n.params.get("sni").unwrap(), "vk.com");
    assert_eq!(n.params.get("path").unwrap(), "/video");
    assert_eq!(n.remark, "My Node");
    assert!(n.is_xhttp());
}

#[test]
fn splithttp_is_treated_as_xhttp() {
    let link = "vless://uuid@host:8443?type=splithttp&security=tls";
    let n = VlessNode::parse(link).unwrap();
    assert!(n.is_xhttp());
}

#[test]
fn tcp_default_network_is_not_xhttp() {
    let link = "vless://uuid@host:443?security=tls";
    let n = VlessNode::parse(link).unwrap();
    assert_eq!(n.network(), "tcp");
    assert!(!n.is_xhttp());
}

#[test]
fn ipv6_authority() {
    let link = "vless://uuid@[2606:4700:4700::1111]:443?type=xhttp";
    let n = VlessNode::parse(link).unwrap();
    assert_eq!(n.host, "2606:4700:4700::1111");
    assert_eq!(n.port, 443);
}

#[test]
fn round_trips() {
    let link = "vless://uuid@host:443?security=reality&type=xhttp#name";
    let n = VlessNode::parse(link).unwrap();
    let s = n.to_link();
    let n2 = VlessNode::parse(&s).unwrap();
    assert_eq!(n, n2);
}

#[test]
fn rejects_non_vless() {
    assert!(matches!(
        VlessNode::parse("vmess://whatever"),
        Err(ParseError::NotVless)
    ));
}

#[test]
fn each_error_has_its_input() {
    assert_eq!(VlessNode::parse("vless://host:443"), Err(ParseError::MissingUuid));
    assert_eq!(VlessNode::parse("vless://@host:443"), Err(ParseError::MissingUuid));
    assert_eq!(VlessNode::parse("vless://u@host"), Err(ParseError::MissingPort));
    assert_eq!(VlessNode::parse("vless://u@host:http"), Err(ParseError::BadPort));
    assert_eq!(VlessNode::parse("vless://u@host:70000"), Err(ParseError::BadPort));
    assert_eq!(VlessNode::parse("vless://u@:443"), Err(ParseError::EmptyHost));
    assert_eq!(VlessNode::parse("vless://u@[::1:443"), Err(ParseError::EmptyHost));
    assert_eq!(VlessNode::parse("vless://u@[::1]443"), Err(ParseError::MissingPort));
    assert_eq!(VlessNode::parse("vless://u@[]:443"), Err(ParseError::EmptyHost));
    assert_eq!(VlessNode::parse("vless://u@[::1]:x"), Err(ParseError::BadPort));
}

#[test]
fn error_messages() {
    assert_eq!(ParseError::NotVless.message(), "not a vless:// link");
    assert_eq!(ParseError::MissingUuid.message(), "missing uuid before '@'");
    assert_eq!(ParseError::MissingPort.message(), "missing ':port'");
    assert_eq!(ParseError::BadPort.message(), "port is not a valid number");
    assert_eq!(ParseError::EmptyHost.message(), "empty host");
}

#[test]
fn trims_and_accepts_plus_port() {
    let n = VlessNode::parse("  vless://u@h:+8443  \n").unwrap();
    assert_eq!(n.port, 8443);
    assert_eq!(n.host, "h");
    assert!(n.params.is_empty());
    assert_eq!(n.remark, "");
}

#[test]
fn later_parameter_replaces_earlier() {
    let n = VlessNode::parse("vless://u@h:1?type=tcp&type=xhttp&&flag").unwrap();
    assert_eq!(n.params.len(), 2);
    assert_eq!(n.network(), "xhttp");
    assert_eq!(n.params.get("flag").unwrap(), "");
    assert_eq!(n.security(), "none");
}

#[test]
fn link_encodes_parameters_in_key_order() {
    let n = VlessNode::parse("vless://u@h:443?type=xhttp&path=%2Fa%20b&alpn=h2#x y").unwrap();
    assert_eq!(
        n.to_link(),
        "vless://u@h:443?alpn=h2&path=%2Fa%20b&type=xhttp#x%20y"
    );
    let plain = VlessNode::parse("vless://u@h:443").unwrap();
    assert_eq!(plain.to_link(), "vless://u@h:443");
}

#[test]
fn percent_decoding_in_uuid_and_keys() {
    let n = VlessNode::parse("vless://a%40b@h:1?k%3D=v%26w#%E2%9C%93").unwrap();
    assert_eq!(n.uuid, "a@b");
    assert_eq!(n.params.get("k=").unwrap(), "v&w");
    assert_eq!(n.remark, "\u{2713}");
}

#[test]
fn dedup_key_lowercases_host() {
    let n = VlessNode::parse("vless://U1@CDN.Example.COM:443?type=xhttp&security=tls").unwrap();
    assert_eq!(n.dedup_key(), "U1@cdn.example.com:443|xhttp|tls");
    let m = VlessNode::parse("vless://U1@h:80").unwrap();
    assert_eq!(m.dedup_key(), "U1@h:80|tcp|none");
}

#[test]
fn set_remark_changes_only_the_remark() {
    let mut n = VlessNode::parse("vless://u@h:1?type=xhttp#old").unwrap();
    let before = n.duplicate();
    n.set_remark("new".to_string());
    assert_eq!(n.remark, "new");
    assert_eq!(n.uuid, before.uuid);
    assert_eq!(n.params, before.params);
}

#[test]
fn round_trip_of_unusual_values() {
    let n = VlessNode::parse(
        "vless://id:1@fe80::1:8080?%26weird%3D=%23%3F&sni=a.b#%D0%9F%D1%80%D0%B8%D0%B2%D0%B5%D1%82",
    )
    .unwrap();
    assert_eq!(n.host, "fe80::1");
    assert_eq!(n.remark, "Привет");
    let again = VlessNode::parse(&n.to_link()).unwrap();
    assert_eq!(n, again);
}

#[test]
fn remarks_are_percent_decoded_and_encoded() {
    let n = VlessNode::parse("vless://u@h:1#%C3%BC%FF").unwrap();
    assert_eq!(n.remark, "\u{fc}\u{FFFD}");
    assert_eq!(VlessNode::parse("vless://u@h:1#100%").unwrap().remark, "100%");
    assert_eq!(VlessNode::parse("vless://u@h:1#%zz%4").unwrap().remark, "%zz%4");
    let mut m = VlessNode::parse("vless://u@h:1").unwrap();
    m.set_remark("a b/\u{fc}-_.~".to_string());
    assert_eq!(m.to_link(), "vless://u@h:1#a%20b%2F%C3%BC%2D%5F%2E%7E");
    for s in ["x y", "\u{1F1F7}\u{1F1FA}:YA #01 \u{b7} 35ms", "%%41"] {
        m.set_remark(s.to_string());
        assert_eq!(VlessNode::parse(&m.to_link()).unwrap().remark, s);
    }
}

#[test]
fn parsed_nodes_print_in_key_order_and_round_trip() {
    let n = VlessNode::parse("vless://u%2Dx@Host.Example:8443?type=xhttp&b=2&a=1&path=%2F#r").unwrap();
    let link = n.to_link();
    assert_eq!(link, "vless://u-x@Host.Example:8443?a=1&b=2&path=%2F&type=xhttp#r");
    assert_eq!(VlessNode::parse(&link).unwrap(), n);
    let bad = VlessNode::parse("vless://%FF@h:1").unwrap();
    assert_eq!(bad.uuid, "\u{FFFD}");
    assert_eq!(VlessNode::parse(&bad.to_link()).unwrap(), bad);
}

#[test]
fn dedup_key_ignores_remark_case_and_other_params() {
    let a = VlessNode::parse("vless://u@Host:1?type=xhttp&security=tls&sni=a#one").unwrap();
    let b = VlessNode::parse("vless://u@hOST:1?security=tls&type=xhttp&path=%2F#two").unwrap();
    let c = VlessNode::parse("vless://u@host:2?type=xhttp&security=tls").unwrap();
    assert_eq!(a.dedup_key(), b.dedup_key());
    assert_ne!(a.dedup_key(), c.dedup_key());
    assert_eq!(a.dedup_key(), "u@host:1|xhttp|tls");
}

#[test]
fn parsing_ignores_surrounding_white_space() {
    let link = "vless://u@h:1?type=xhttp#r";
    assert_eq!(VlessNode::parse(&format!(" \t{link}\n")), VlessNode::parse(link));
    assert_eq!(VlessNode::parse("  VLESS://u@h:1"), Err(ParseError::NotVless));
    assert_eq!(VlessNode::parse(" vless://h:1"), Err(ParseError::MissingUuid));
}

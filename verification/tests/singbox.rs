use hiddify_vless_xhttp_parser::singbox::{build_test_config, outbound_from_node};
use hiddify_vless_xhttp_parser::vless::VlessNode;

#[test]
fn builds_xhttp_reality_outbound() {
    let node = VlessNode::parse(
        "vless://uuid@cdn.example.com:443?type=xhttp&security=reality&sni=vk.com&pbk=KEY&sid=ab&fp=chrome&path=%2Fv#n",
    )
    .unwrap();
    let ob = outbound_from_node(&node);
    assert_eq!(ob.kind, "vless");
    assert_eq!(ob.server, "cdn.example.com");
    let tls = ob.tls.as_ref().unwrap();
    assert_eq!(tls.reality.as_ref().unwrap().public_key.as_deref(), Some("KEY"));
    assert_eq!(tls.server_name, "vk.com");
    let transport = ob.transport.as_ref().unwrap();
    assert_eq!(transport.kind, "xhttp");
    assert_eq!(transport.path.as_deref(), Some("/v"));
}

#[test]
fn config_has_socks_inbound() {
    let node = VlessNode::parse("vless://uuid@h:443?type=xhttp&security=tls").unwrap();
    let cfg = build_test_config(&node, 10800);
    assert_eq!(cfg.inbounds[0].listen_port, 10800);
    assert_eq!(cfg.inbounds[0].kind, "socks");
}

#[test]
fn tls_fallbacks_and_optional_fields() {
    let node = VlessNode::parse(
        "vless://u@srv:443?type=tcp&security=tls&host=front&alpn=h2,,http/1.1&fp=&flow=xtls",
    )
    .unwrap();
    let ob = outbound_from_node(&node);
    assert_eq!(ob.flow.as_deref(), Some("xtls"));
    let tls = ob.tls.as_ref().unwrap();
    assert_eq!(tls.server_name, "front");
    assert_eq!(tls.alpn.as_ref().unwrap(), &vec!["h2".to_string(), "http/1.1".to_string()]);
    assert!(tls.utls.is_none());
    assert!(tls.reality.is_none());
    assert!(ob.transport.is_none());

    let bare = VlessNode::parse("vless://u@srv:80?type=splithttp&host=&mode=auto&flow=").unwrap();
    let ob = outbound_from_node(&bare);
    assert!(ob.tls.is_none());
    assert!(ob.flow.is_none());
    let t = ob.transport.as_ref().unwrap();
    assert!(t.host.is_none());
    assert!(t.path.is_none());
    assert_eq!(t.mode.as_deref(), Some("auto"));

    let by_host = VlessNode::parse("vless://u@srv:443?security=reality&alpn=,").unwrap();
    let tls = outbound_from_node(&by_host).tls.unwrap();
    assert_eq!(tls.server_name, "srv");
    assert!(tls.alpn.is_none());
    let reality = tls.reality.unwrap();
    assert!(reality.public_key.is_none() && reality.short_id.is_none());
}

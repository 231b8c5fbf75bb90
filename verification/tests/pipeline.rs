use hiddify_vless_xhttp_parser::cidr::{IpAddress, ProviderDb};
use hiddify_vless_xhttp_parser::pipeline::{
    cap_nodes, classify_provider, select_xhttp_nodes, socks_port_for,
};

#[test]
fn selects_unique_xhttp_nodes_in_key_order() {
    let links: Vec<String> = [
        "vless://b@h:1?type=xhttp#first",
        "vless://a@h:1?type=tcp",
        "not a link",
        "vless://a@h:1?type=splithttp",
        "vless://b@H:1?type=xhttp#second",
    ]
    .iter()
    .map(|s| s.to_string())
    .collect();
    let nodes = select_xhttp_nodes(&links);
    assert_eq!(nodes.len(), 2);
    assert_eq!(nodes[0].uuid, "a");
    assert_eq!(nodes[1].uuid, "b");
    assert_eq!(nodes[1].remark, "second");
    assert_eq!(nodes[1].host, "H");
}

#[test]
fn classifies_by_provider_ranges() {
    let db = ProviderDb::from_files(&vec![("vk".to_string(), "10.0.0.0/8".to_string())]);
    let inside = IpAddress::V4(0x0a01_0203);
    let outside = IpAddress::V4(0x0b01_0203);
    assert_eq!(classify_provider(&db, inside, false), Some("vk".to_string()));
    assert_eq!(classify_provider(&db, outside, false), None);
    assert_eq!(classify_provider(&db, outside, true), Some("other".to_string()));
}

#[test]
fn socks_ports_cycle() {
    assert_eq!(socks_port_for(0), 21080);
    assert_eq!(socks_port_for(3999), 25079);
    assert_eq!(socks_port_for(4000), 21080);
    assert_eq!(socks_port_for(65536 + 7), 21087);
}

#[test]
fn caps_node_count() {
    let mut v = vec![1, 2, 3, 4];
    cap_nodes(&mut v, 0);
    assert_eq!(v, vec![1, 2, 3, 4]);
    cap_nodes(&mut v, 10);
    assert_eq!(v.len(), 4);
    cap_nodes(&mut v, 2);
    assert_eq!(v, vec![1, 2]);
}

#[test]
fn selection_keeps_one_xhttp_node_per_key() {
    let links: Vec<String> = [
        "vless://u@h:1?type=xhttp&security=tls#a",
        "vless://u@h:1?type=xhttp&security=tls#b",
        "vless://u@h:1?type=xhttp&security=reality#c",
        "vless://u@h:2?type=grpc",
    ]
    .iter()
    .map(|s| s.to_string())
    .collect();
    let nodes = select_xhttp_nodes(&links);
    assert_eq!(nodes.len(), 2);
    for n in &nodes {
        assert!(n.is_xhttp());
    }
    assert_ne!(nodes[0].dedup_key(), nodes[1].dedup_key());
    assert_eq!(nodes[0].remark, "c");
    assert_eq!(nodes[1].remark, "b");
}

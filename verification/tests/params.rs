use hiddify_vless_xhttp_parser::params::Params;

#[test]
fn insert_keeps_key_order_and_replaces() {
    let mut p = Params::new();
    p.insert("type".to_string(), "tcp".to_string());
    p.insert("alpn".to_string(), "h2".to_string());
    p.insert("type".to_string(), "xhttp".to_string());
    p.insert("Zeta".to_string(), "1".to_string());
    assert_eq!(p.len(), 3);
    let keys: Vec<String> = (0..p.len()).map(|i| p.entry(i).0.clone()).collect();
    assert_eq!(keys, vec!["Zeta", "alpn", "type"]);
    assert_eq!(p.get("type").unwrap(), "xhttp");
    assert_eq!(p.get("missing"), None);
}

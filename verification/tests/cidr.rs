use hiddify_vless_xhttp_parser::cidr::{
    collect_prefixes, parse_networks, provider_asns, provider_file_names, render_provider_file, IpAddress, Network, ProviderDb,
};

fn v4(a: u8, b: u8, c: u8, d: u8) -> IpAddress {
    IpAddress::V4(u32::from_be_bytes([a, b, c, d]))
}

fn files(list: &[(&str, &str)]) -> Vec<(String, String)> {
    list.iter().map(|(n, b)| (n.to_string(), b.to_string())).collect()
}

#[test]
fn parses_network_lines() {
    let nets = parse_networks("# c\n77.88.0.0/18\n\n 2a02:6b8::/29 \nbad\n10.0.0.1\n1.2.3.0/33\n");
    assert_eq!(
        nets,
        vec![
            Network::V4 { addr: u32::from_be_bytes([77, 88, 0, 0]), prefix: 18 },
            Network::V6 { addr: 0x2a02_06b8_0000_0000_0000_0000_0000_0000, prefix: 29 },
            Network::V4 { addr: u32::from_be_bytes([10, 0, 0, 1]), prefix: 32 },
        ]
    );
}

#[test]
fn matches_first_provider_with_a_containing_range() {
    let db = ProviderDb::from_files(&files(&[
        ("vk", "87.240.128.0/18\n"),
        ("yandex", "77.88.0.0/18\n2a02:6b8::/29\n"),
        ("wide", "0.0.0.0/0\n"),
    ]));
    assert_eq!(db.match_ip(v4(87, 240, 190, 78)), Some("vk"));
    assert_eq!(db.match_ip(v4(77, 88, 55, 88)), Some("yandex"));
    assert_eq!(db.match_ip(v4(1, 2, 3, 4)), Some("wide"));
    assert_eq!(
        db.match_ip(IpAddress::V6(0x2a02_06b8_0000_0000_0000_0000_0000_0001)),
        Some("yandex")
    );
    assert_eq!(db.match_ip(IpAddress::V6(1)), None);
    assert_eq!(db.len(), 4);
    assert!(!db.is_empty());
    assert_eq!(
        db.summary(),
        vec![("vk".to_string(), 1), ("yandex".to_string(), 2), ("wide".to_string(), 1)]
    );
}

#[test]
fn unknown_ip_returns_none_without_ranges() {
    let db = ProviderDb::from_files(&files(&[("vk", "10.0.0.0/8\n")]));
    assert_eq!(db.match_ip(v4(1, 2, 3, 4)), None);
}

#[test]
fn empty_directory_falls_back_to_embedded() {
    let db = ProviderDb::from_files(&Vec::new());
    let names: Vec<String> = db.summary().into_iter().map(|e| e.0).collect();
    let built_in: Vec<String> = ProviderDb::embedded().summary().into_iter().map(|e| e.0).collect();
    assert_eq!(names, built_in);
    let table: Vec<String> = provider_asns().into_iter().map(|e| e.0).collect();
    assert_eq!(names, table);
}

#[test]
fn network_contains_by_prefix() {
    let n = Network::V4 { addr: u32::from_be_bytes([127, 0, 0, 0]), prefix: 24 };
    assert!(n.contains(v4(127, 0, 0, 70)));
    assert!(!n.contains(v4(127, 0, 1, 70)));
    assert!(!n.contains(IpAddress::V6(1)));
    let all = Network::V6 { addr: 5, prefix: 0 };
    assert!(all.contains(IpAddress::V6(u128::MAX)));
    let one = Network::V6 { addr: 5, prefix: 128 };
    assert!(one.contains(IpAddress::V6(5)));
    assert!(!one.contains(IpAddress::V6(4)));
}

#[test]
fn renders_provider_file() {
    let body = render_provider_file(
        "vk",
        &[47764, 28709],
        &["5.61.16.0/21".to_string(), "87.240.128.0/18".to_string()],
    );
    assert_eq!(
        body,
        "# Диапазоны vk. ASN: AS47764, AS28709.\n# Обновление: hiddify-parser update-cidr\n5.61.16.0/21\n87.240.128.0/18\n"
    );
}

#[test]
fn collects_sorted_unique_valid_prefixes() {
    let batches = vec![
        vec!["87.240.128.0/18".to_string(), "junk".to_string(), "5.61.16.0/21".to_string()],
        vec!["5.61.16.0/21".to_string(), "2a00:bdc0::/36".to_string()],
    ];
    assert_eq!(
        collect_prefixes(&batches),
        vec!["2a00:bdc0::/36", "5.61.16.0/21", "87.240.128.0/18"]
    );
}

#[test]
fn provider_asn_table_lists_nine_providers() {
    let t = provider_asns();
    assert_eq!(t.len(), 9);
    assert_eq!(t[0], ("vk".to_string(), vec![47764, 47541, 47542, 28709]));
    assert_eq!(t[1], ("yandex".to_string(), vec![13238, 200350]));
    assert_eq!(t[8], ("ttk".to_string(), vec![20485]));
}

#[test]
fn rendered_provider_file_reads_back() {
    let prefixes = vec!["5.61.16.0/21".to_string(), "2a00:bdc0::/36".to_string()];
    let body = render_provider_file("vk", &[47764], &prefixes);
    assert_eq!(
        parse_networks(&body),
        vec![
            Network::V4 { addr: u32::from_be_bytes([5, 61, 16, 0]), prefix: 21 },
            Network::V6 { addr: 0x2a00_bdc0_0000_0000_0000_0000_0000_0000, prefix: 36 },
        ]
    );
    let db = ProviderDb::from_files(&vec![("vk".to_string(), body)]);
    assert_eq!(db.match_ip(v4(5, 61, 17, 1)), Some("vk"));
}

#[test]
fn comment_and_empty_prefixes_read_back_as_nothing() {
    let prefixes = vec!["#x".to_string(), String::new(), "1.2.3.0/24".to_string()];
    let body = render_provider_file("ttk", &[20485], &prefixes);
    assert_eq!(
        parse_networks(&body),
        vec![Network::V4 { addr: u32::from_be_bytes([1, 2, 3, 0]), prefix: 24 }]
    );
}

#[test]
fn directory_listing_gives_sorted_txt_stems() {
    let names: Vec<String> = ["yandex.txt", "README.md", ".txt", "vk.txt", "a-b.txt", "a.txt", "notes.txt.bak", "x.", "..txt"]
        .iter()
        .map(|s| s.to_string())
        .collect();
    let got = provider_file_names(&names);
    let want: Vec<(String, String)> = [("..txt", "."), ("a-b.txt", "a-b"), ("a.txt", "a"), ("vk.txt", "vk"), ("yandex.txt", "yandex")]
        .iter()
        .map(|(a, b)| (a.to_string(), b.to_string()))
        .collect();
    assert_eq!(got, want);
    assert!(provider_file_names(&Vec::new()).is_empty());
}

use base64::Engine;
use hiddify_vless_xhttp_parser::output::{
    count_by_provider, provider_flag, provider_label, render_links, render_remark, speed_label,
    subscription_file, vless_file, RankedNode,
};
use hiddify_vless_xhttp_parser::sources::extract_links;
use hiddify_vless_xhttp_parser::vless::VlessNode;

fn ranked(provider: &str, latency_ms: u128) -> RankedNode {
    RankedNode {
        node: VlessNode::parse("vless://u@cdn.example.com:443?type=xhttp&security=reality")
            .unwrap(),
        provider: provider.to_string(),
        speed: speed_label(None, Some(latency_ms)),
    }
}

#[test]
fn render_sets_remark_and_keeps_link_valid() {
    let links = render_links(&[ranked("yandex", 42)]);
    assert_eq!(links.len(), 1);
    let parsed = VlessNode::parse(&links[0]).unwrap();
    assert!(parsed.remark.contains("YA"));
    assert!(parsed.remark.contains('\u{1F1F7}'));
    assert!(parsed.remark.contains("#01"));
    assert!(parsed.is_xhttp());
}

#[test]
fn remark_format() {
    assert_eq!(
        render_remark("yandex", 1, "35ms"),
        "\u{1F1F7}\u{1F1FA}:YA #01 \u{00B7} 35ms"
    );
    assert_eq!(
        render_remark("somewhere", 123, "n/a"),
        "\u{1F1F7}\u{1F1FA}:somewhere #123 \u{00B7} n/a"
    );
    let links = render_links(&[ranked("vk", 5), ranked("ttk", 7)]);
    let second = VlessNode::parse(&links[1]).unwrap();
    assert_eq!(second.remark, "\u{1F1F7}\u{1F1FA}:TTK #02 \u{00B7} 7ms");
}

#[test]
fn labels_and_flag() {
    let cases = [
        ("vk", "VK"),
        ("yandex", "YA"),
        ("mts", "MTS"),
        ("beeline", "Beeline"),
        ("megafon", "MegaFon"),
        ("rostelecom", "Rostelecom"),
        ("tele2", "Tele2"),
        ("ertelecom", "ER-Telecom"),
        ("ttk", "TTK"),
        ("other", "other"),
    ];
    for (p, l) in cases {
        assert_eq!(provider_label(p), l);
    }
    assert_eq!(provider_flag("vk"), "\u{1F1F7}\u{1F1FA}");
}

#[test]
fn speed_labels() {
    assert_eq!(speed_label(Some("12.5Mbps".to_string()), Some(3)), "12.5Mbps");
    assert_eq!(speed_label(None, Some(35)), "35ms");
    assert_eq!(speed_label(None, None), "n/a");
}

#[test]
fn counts_providers_in_name_order() {
    let ps: Vec<String> = ["yandex", "vk", "yandex", "other"].iter().map(|s| s.to_string()).collect();
    assert_eq!(
        count_by_provider(&ps),
        vec![("other".to_string(), 1), ("vk".to_string(), 1), ("yandex".to_string(), 2)]
    );
    assert!(count_by_provider(&[]).is_empty());
}

#[test]
fn output_file_texts() {
    let links = vec!["vless://a@h:1".to_string(), "vless://b@h:2".to_string()];
    assert_eq!(vless_file(&links), "vless://a@h:1\nvless://b@h:2\n");
    assert_eq!(
        subscription_file(&links),
        base64::engine::general_purpose::STANDARD.encode("vless://a@h:1\nvless://b@h:2\n")
    );
    assert_eq!(subscription_file(&links), "dmxlc3M6Ly9hQGg6MQp2bGVzczovL2JAaDoyCg==");
    assert_eq!(vless_file(&[]), "\n");
    assert_eq!(subscription_file(&[]), "Cg==");
    for n in 0..8 {
        let s: String = "xyz\u{e9}".chars().cycle().take(n).collect();
        assert_eq!(
            subscription_file(&[s.clone()]),
            base64::engine::general_purpose::STANDARD.encode(format!("{s}\n"))
        );
        assert_eq!(subscription_file(&[s.clone()]), base64::engine::general_purpose::STANDARD.encode(vless_file(&[s])));
    }
}

#[test]
fn provider_counts_add_up() {
    let ps: Vec<String> = ["vk", "ttk", "vk", "vk", "mts"].iter().map(|s| s.to_string()).collect();
    let counts = count_by_provider(&ps);
    assert_eq!(counts.iter().map(|c| c.1).sum::<usize>(), ps.len());
    assert_eq!(counts.iter().find(|c| c.0 == "vk").map(|c| c.1), Some(3));
    assert_eq!(counts.iter().find(|c| c.0 == "yandex"), None);
}

#[test]
fn subscription_reads_back_as_rendered_links() {
    let links = render_links(&[ranked("yandex", 42), ranked("vk", 7), ranked("mts", 300)]);
    let sub = subscription_file(&links);
    assert_eq!(extract_links(&sub), links);
    for (i, l) in links.iter().enumerate() {
        let n = VlessNode::parse(l).unwrap();
        assert!(n.remark.contains(&format!("#{:02}", i + 1)));
        assert!(n.is_xhttp());
    }
}

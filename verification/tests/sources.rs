use base64::Engine;
use hiddify_vless_xhttp_parser::sources::{
    default_sources, extract_links, parse_source_list, scan_for_vless, EMBEDDED_SOURCES,
};

#[test]
fn extracts_plain_links() {
    let body = "vless://a@h:443?type=xhttp#x\nvless://b@h2:8443?type=tcp#y\n";
    let links = extract_links(body);
    assert_eq!(links.len(), 2);
    assert!(links[0].starts_with("vless://a@"));
}

#[test]
fn extracts_base64_subscription() {
    let inner = "vless://a@h:443?type=xhttp#x\nvless://b@h2:8443?type=tcp#y";
    let encoded = base64::engine::general_purpose::STANDARD_NO_PAD.encode(inner);
    let links = extract_links(&encoded);
    assert_eq!(links.len(), 2);
}

#[test]
fn ignores_comments_in_source_list() {
    let list = "# comment\n\nhttps://a/b\nhttps://c/d\n";
    assert_eq!(parse_source_list(list).len(), 2);
}

#[test]
fn source_lines_are_trimmed() {
    let list = "  https://a/b  \r\n\t# not this\n   \nhttps://c/d";
    assert_eq!(parse_source_list(list), vec!["https://a/b", "https://c/d"]);
    assert!(parse_source_list("").is_empty());
}

#[test]
fn built_in_source_list_is_the_parsed_embedded_text() {
    assert_eq!(default_sources(), parse_source_list(EMBEDDED_SOURCES));
}

#[test]
fn scan_keeps_suffix_from_first_scheme() {
    let text = "junk prefixvless://x@h:1 \t other\nvless://y@h:2vless://z";
    assert_eq!(
        scan_for_vless(text),
        vec!["vless://x@h:1", "vless://y@h:2vless://z"]
    );
    assert!(scan_for_vless("   ").is_empty());
}

#[test]
fn url_safe_base64_and_padding() {
    let inner = "vless://a@h:443?path=%3F%3E#x";
    let url = base64::engine::general_purpose::URL_SAFE.encode(inner);
    assert!(url.ends_with('='));
    assert_eq!(extract_links(&url), vec![inner]);
    let std = base64::engine::general_purpose::STANDARD.encode(inner);
    let spaced = format!("{}\n{}", &std[..10], &std[10..]);
    assert_eq!(extract_links(&spaced), vec![inner]);
}

#[test]
fn short_or_non_link_base64_is_kept() {
    assert!(extract_links("dmxlc3M").is_empty());
    let other = base64::engine::general_purpose::STANDARD.encode("no links here at all");
    assert!(extract_links(&other).is_empty());
}

#[test]
fn every_extracted_link_starts_with_scheme() {
    let body = "junk xvless://a@h:1\tvless://b@h:2 vmess://c \n  prefix-vless://d@h:3?x=1";
    let links = extract_links(body);
    assert_eq!(links, vec!["vless://a@h:1", "vless://b@h:2", "vless://d@h:3?x=1"]);
    for l in &links {
        assert!(l.starts_with("vless://"));
        assert!(!l.chars().any(char::is_whitespace));
    }
}

#[test]
fn url_safe_and_standard_subscriptions_give_the_text_links() {
    let text = "vless://u@h:1?path=%2F%3F%3E#\u{1F1F7}\u{1F1FA}>>?\nvless://v@g:2\n";
    let expected = vec!["vless://u@h:1?path=%2F%3F%3E#\u{1F1F7}\u{1F1FA}>>?", "vless://v@g:2"];
    let std_no_pad = base64::engine::general_purpose::STANDARD_NO_PAD.encode(text);
    let url_no_pad = base64::engine::general_purpose::URL_SAFE_NO_PAD.encode(text);
    let std_pad = base64::engine::general_purpose::STANDARD.encode(text);
    assert_eq!(extract_links(&std_no_pad), expected);
    assert_eq!(extract_links(&url_no_pad), expected);
    assert_eq!(extract_links(&std_pad), expected);
    assert_eq!(extract_links(text), expected);
}

#[test]
fn joined_source_lists_concatenate() {
    let a = "https://a/1\n# c\n  https://a/2 ";
    let b = "\nhttps://b/1\n\nhttps://a/1";
    let mut want = parse_source_list(a);
    want.extend(parse_source_list(b));
    assert_eq!(parse_source_list(&format!("{a}\n{b}")), want);
    assert_eq!(want.len(), 4);
}

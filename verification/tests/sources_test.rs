use proxy_pool::proxy::Protocol;
use proxy_pool::sources::{
    apply_source_protocol, default_sources, parse_ip_port_lines, source_protocol, ProxyCandidate,
};
use proxy_pool::addr::ProxyAddr;

fn texts(c: &[ProxyCandidate]) -> Vec<(String, Protocol)> {
    c.iter().map(|c| (c.host_port.clone(), c.protocol)).collect()
}

#[test]
fn default_sources_lists_ten_lists() {
    let s = default_sources();
    assert_eq!(s.len(), 10);
    assert_eq!(s[0].name, "proxyscrape-api");
    assert!(s[0].is_api);
    assert_eq!(s[4].name, "hookzof-socks5");
    assert_eq!(s[4].default_protocol, Protocol::Socks5);
    assert_eq!(s[5].default_protocol, Protocol::Https);
    assert_eq!(s[9].url, "https://api.openproxylist.xyz/http.txt");
    assert!(s[9].is_api);
    assert_eq!(s.iter().filter(|s| s.is_api).count(), 2);
}

#[test]
fn source_protocol_replaces_plain_http_only() {
    assert_eq!(source_protocol(Protocol::Http, Protocol::Socks5), Protocol::Socks5);
    assert_eq!(source_protocol(Protocol::Http, Protocol::Http), Protocol::Http);
    assert_eq!(source_protocol(Protocol::Socks4, Protocol::Socks5), Protocol::Socks4);
    assert_eq!(source_protocol(Protocol::Https, Protocol::Http), Protocol::Https);
}

#[test]
fn apply_source_protocol_keeps_addresses_in_order() {
    let a = ProxyAddr::V4(1, 80);
    let b = ProxyAddr::V4(2, 81);
    let r = apply_source_protocol(vec![(a, Protocol::Http), (b, Protocol::Socks4)], Protocol::Https);
    assert_eq!(r, vec![(a, Protocol::Https), (b, Protocol::Socks4)]);
}

#[test]
fn plain_lines_give_http_candidates() {
    let r = parse_ip_port_lines("1.2.3.4:8080\n5.6.7.8:3128\n");
    assert_eq!(
        texts(&r),
        vec![("1.2.3.4:8080".to_string(), Protocol::Http), ("5.6.7.8:3128".to_string(), Protocol::Http)]
    );
}

#[test]
fn scheme_prefix_names_the_protocol() {
    let r = parse_ip_port_lines("socks5://1.1.1.1:1080\nsocks4://2.2.2.2:1081\nhttps://3.3.3.3:443\nhttp://4.4.4.4:80");
    assert_eq!(
        texts(&r),
        vec![
            ("1.1.1.1:1080".to_string(), Protocol::Socks5),
            ("2.2.2.2:1081".to_string(), Protocol::Socks4),
            ("3.3.3.3:443".to_string(), Protocol::Https),
            ("4.4.4.4:80".to_string(), Protocol::Http),
        ]
    );
}

#[test]
fn comments_and_blank_lines_are_skipped() {
    let r = parse_ip_port_lines("# list\n\n   \n// note\n9.9.9.9:99\n");
    assert_eq!(texts(&r), vec![("9.9.9.9:99".to_string(), Protocol::Http)]);
}

#[test]
fn trailing_country_and_description_are_cut() {
    let r = parse_ip_port_lines("1.2.3.4:80#US\n1.2.3.4:81 some text\n1.2.3.4:82\tDE\n");
    assert_eq!(
        texts(&r),
        vec![
            ("1.2.3.4:80".to_string(), Protocol::Http),
            ("1.2.3.4:81".to_string(), Protocol::Http),
            ("1.2.3.4:82".to_string(), Protocol::Http),
        ]
    );
}

#[test]
fn crlf_and_surrounding_white_space_are_trimmed() {
    let r = parse_ip_port_lines("  1.1.1.1:1\r\n\u{3000}2.2.2.2:2\u{3000}\r\n");
    assert_eq!(
        texts(&r),
        vec![("1.1.1.1:1".to_string(), Protocol::Http), ("2.2.2.2:2".to_string(), Protocol::Http)]
    );
}

#[test]
fn last_word_of_the_field_is_taken() {
    // A no-break space is white space but does not end the field.
    let r = parse_ip_port_lines("flag\u{a0}7.7.7.7:70\n");
    assert_eq!(texts(&r), vec![("7.7.7.7:70".to_string(), Protocol::Http)]);
}

#[test]
fn a_country_flag_before_the_address_is_skipped() {
    let r = parse_ip_port_lines("\u{1F1FA}\u{1F1F8} 1.2.3.4:8080 US");
    assert_eq!(texts(&r), vec![("1.2.3.4:8080".to_string(), Protocol::Http)]);
    let r = parse_ip_port_lines("socks5://\u{1F1E9}\u{1F1EA}\u{3000}5.6.7.8:1080");
    assert_eq!(texts(&r), vec![("5.6.7.8:1080".to_string(), Protocol::Socks5)]);
}

#[test]
fn a_label_that_is_no_flag_stays_in_front() {
    let r = parse_ip_port_lines("US 1.2.3.4:80");
    assert_eq!(texts(&r), vec![("US".to_string(), Protocol::Http)]);
}

#[test]
fn empty_body_gives_nothing() {
    assert!(parse_ip_port_lines("").is_empty());
    assert!(parse_ip_port_lines("\n\n").is_empty());
}

#[test]
fn white_space_after_a_scheme_leaves_an_empty_address() {
    let r = parse_ip_port_lines("socks5:// 1.2.3.4:80");
    assert_eq!(texts(&r), vec![(String::new(), Protocol::Socks5)]);
}

#[test]
fn lines_are_read_independently() {
    let a = "1.1.1.1:80\n# note\nsocks4://2.2.2.2:1080";
    let b = "\n\n3.3.3.3:3128 FR\nhttps://4.4.4.4:443";
    let joined = format!("{a}\n{b}");
    let mut expected = texts(&parse_ip_port_lines(a));
    expected.extend(texts(&parse_ip_port_lines(b)));
    assert_eq!(texts(&parse_ip_port_lines(&joined)), expected);
    assert_eq!(expected.len(), 4);
}

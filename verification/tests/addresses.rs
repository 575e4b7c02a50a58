use traefik_guard::decimal::{decimal_text, digit_of, parse_octet, parse_u16};
use traefik_guard::ip::{Ipv4Addr, Ipv4Network};
use traefik_guard::text::{
    after_first, before_first, chars_of, first_char, is_char, is_whitespace, join_text, last_char,
    same_text, split_text, starts_with, strip_suffix, trim_end_char, trim_text,
};

fn strings(parts: &[&str]) -> Vec<String> {
    parts.iter().map(|p| (*p).to_owned()).collect()
}

#[test]
fn numbers_are_read() {
    assert_eq!(parse_u16("0"), Some(0));
    assert_eq!(parse_u16("200"), Some(200));
    assert_eq!(parse_u16("+200"), Some(200));
    assert_eq!(parse_u16("000200"), Some(200));
    assert_eq!(parse_u16("65535"), Some(65535));
    assert_eq!(parse_u16("65536"), None);
    assert_eq!(parse_u16("99999999999999999999"), None);
    assert_eq!(parse_u16(""), None);
    assert_eq!(parse_u16("+"), None);
    assert_eq!(parse_u16("++1"), None);
    assert_eq!(parse_u16("-1"), None);
    assert_eq!(parse_u16("1 "), None);
    assert_eq!(parse_u16("12a"), None);
    assert_eq!(digit_of('7'), Some(7));
    assert_eq!(digit_of('a'), None);
}

#[test]
fn octets_are_read() {
    assert_eq!(parse_octet("0"), Some(0));
    assert_eq!(parse_octet("9"), Some(9));
    assert_eq!(parse_octet("255"), Some(255));
    assert_eq!(parse_octet("256"), None);
    assert_eq!(parse_octet("00"), None);
    assert_eq!(parse_octet("01"), None);
    assert_eq!(parse_octet("1000"), None);
    assert_eq!(parse_octet(""), None);
    assert_eq!(parse_octet("+1"), None);
}

#[test]
fn numbers_are_written() {
    assert_eq!(decimal_text(0), "0");
    assert_eq!(decimal_text(7), "7");
    assert_eq!(decimal_text(10), "10");
    assert_eq!(decimal_text(301), "301");
    assert_eq!(decimal_text(65535), "65535");
}

#[test]
fn addresses_are_read_and_written() {
    assert_eq!(Ipv4Addr::parse("127.0.0.1"), Some(Ipv4Addr::new(127, 0, 0, 1)));
    assert_eq!(Ipv4Addr::parse("255.255.255.255"), Some(Ipv4Addr::new(255, 255, 255, 255)));
    assert_eq!(Ipv4Addr::parse("0.0.0.0"), Some(Ipv4Addr::new(0, 0, 0, 0)));
    assert_eq!(Ipv4Addr::parse("1.2.3"), None);
    assert_eq!(Ipv4Addr::parse("1.2.3.4.5"), None);
    assert_eq!(Ipv4Addr::parse("1.2.3.4."), None);
    assert_eq!(Ipv4Addr::parse("1..3.4"), None);
    assert_eq!(Ipv4Addr::parse("1.2.3.04"), None);
    assert_eq!(Ipv4Addr::parse("1.2.3.256"), None);
    assert_eq!(Ipv4Addr::parse(" 1.2.3.4"), None);
    assert_eq!(Ipv4Addr::parse(""), None);
    assert_eq!(Ipv4Addr::new(127, 0, 0, 1).to_string(), "127.0.0.1");
    assert_eq!(Ipv4Addr::new(0, 10, 200, 255).to_string(), "0.10.200.255");
}

#[test]
fn networks_are_read_and_written() {
    let net = Ipv4Network::parse("10.1.9.32/16").unwrap();
    assert_eq!(net.ip(), Ipv4Addr::new(10, 1, 9, 32));
    assert_eq!(net.prefix(), 16);
    assert_eq!(net.to_string(), "10.1.9.32/16");
    assert_eq!(Ipv4Network::parse("10.0.0.0/255.255.0.0").unwrap().prefix(), 16);
    assert_eq!(Ipv4Network::parse("10.0.0.1").unwrap().prefix(), 32);
    assert_eq!(Ipv4Network::parse("10.0.0.0/33"), None);
    assert_eq!(Ipv4Network::parse("10.0.0.0/8/8"), None);
    assert_eq!(Ipv4Network::parse("10.0.0/8"), None);
    assert_eq!(Ipv4Network::parse("London"), None);
    let made = Ipv4Network::new(Ipv4Addr::new(192, 168, 0, 0), 24).unwrap();
    assert_eq!(made.to_string(), "192.168.0.0/24");
    assert_eq!(Ipv4Network::parse("192.168.0.0/24"), Some(made));
    assert_eq!(Ipv4Network::new(Ipv4Addr::new(192, 168, 0, 0), 33), None);
    assert_eq!(Ipv4Network::new(Ipv4Addr::new(1, 2, 3, 4), 0).unwrap().to_string(), "1.2.3.4/0");
}

#[test]
fn networks_hold_the_addresses_that_share_their_prefix() {
    let net = Ipv4Network::parse("127.0.0.0/24").unwrap();
    assert!(net.contains(Ipv4Addr::new(127, 0, 0, 70)));
    assert!(!net.contains(Ipv4Addr::new(127, 0, 1, 70)));
    let odd = Ipv4Network::parse("10.1.9.32/12").unwrap();
    assert!(odd.contains(Ipv4Addr::new(10, 15, 255, 255)));
    assert!(!odd.contains(Ipv4Addr::new(10, 16, 0, 0)));
    let all = Ipv4Network::parse("1.2.3.4/0").unwrap();
    assert!(all.contains(Ipv4Addr::new(200, 1, 1, 1)));
    let one = Ipv4Network::parse("1.2.3.4/32").unwrap();
    assert!(one.contains(Ipv4Addr::new(1, 2, 3, 4)));
    assert!(!one.contains(Ipv4Addr::new(1, 2, 3, 5)));
}

#[test]
fn texts_are_split_and_joined() {
    assert_eq!(split_text("", ','), strings(&[""]));
    assert_eq!(split_text("a", ','), strings(&["a"]));
    assert_eq!(split_text("a,b,,c,", ','), strings(&["a", "b", "", "c", ""]));
    assert_eq!(split_text(",", ','), strings(&["", ""]));
    assert_eq!(join_text(&strings(&[]), ','), "");
    assert_eq!(join_text(&strings(&["a"]), ','), "a");
    assert_eq!(join_text(&strings(&["a", "", "b"]), ','), "a,,b");
    assert_eq!(join_text(&split_text("x|y||z", '|'), '|'), "x|y||z");
}

#[test]
fn texts_are_trimmed() {
    assert_eq!(trim_text("  a b \t\r\n"), "a b");
    assert_eq!(trim_text("\u{a0}\u{3000}x\u{2003}"), "x");
    assert_eq!(trim_text("   "), "");
    assert_eq!(trim_text(""), "");
    assert_eq!(trim_text("x"), "x");
    assert!(is_whitespace(' '));
    assert!(is_whitespace('\u{85}'));
    assert!(!is_whitespace('\u{200b}'));
    assert!(!is_whitespace('a'));
    assert_eq!(trim_end_char("/data///", '/'), "/data");
    assert_eq!(trim_end_char("///", '/'), "");
    assert_eq!(trim_end_char("a/b", '/'), "a/b");
}

#[test]
fn texts_are_compared_and_cut() {
    assert!(same_text("abc", "abc"));
    assert!(!same_text("abc", "abd"));
    assert!(!same_text("abc", "ab"));
    assert!(!same_text("ab", "abc"));
    assert!(same_text("", ""));
    assert!(starts_with("/admin/x", "/admin"));
    assert!(starts_with("/admin", "/admin"));
    assert!(starts_with("/admin", ""));
    assert!(!starts_with("/adm", "/admin"));
    assert!(!starts_with("/bdmin", "/admin"));
    assert_eq!(first_char("\u{e9}a"), Some('\u{e9}'));
    assert_eq!(first_char(""), None);
    assert_eq!(last_char("a/"), Some('/'));
    assert_eq!(last_char(""), None);
    assert!(is_char("*", '*'));
    assert!(!is_char("**", '*'));
    assert!(!is_char("", '*'));
    assert_eq!(after_first("^/a"), "/a");
    assert_eq!(after_first("\u{e9}x"), "x");
    assert_eq!(before_first("/a?b=c?d", '?'), "/a");
    assert_eq!(before_first("/a", '?'), "/a");
    assert_eq!(before_first("?x", '?'), "");
    assert_eq!(strip_suffix("default.rules.txt", ".rules.txt"), Some("default".to_owned()));
    assert_eq!(strip_suffix(".rules.txt", ".rules.txt"), Some("".to_owned()));
    assert_eq!(strip_suffix("default.txt", ".rules.txt"), None);
    assert_eq!(strip_suffix("txt", ".rules.txt"), None);
    assert_eq!(chars_of("a\u{e9}"), vec!['a', '\u{e9}']);
    assert_eq!(after_first(""), "");
}

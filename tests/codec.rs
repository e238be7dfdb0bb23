use host_webhook_provider::codec::{format_records, parse_hosts, skipped_lines};
use host_webhook_provider::address::address_ok;
use host_webhook_provider::grammar::{chars_of, match_line, name_ok, string_of};
use host_webhook_provider::hosts::HostTable;

fn sorted_addresses(t: &HostTable, name: &str) -> Vec<String> {
    let mut v = t.addresses_of(&name.to_string());
    v.sort();
    v
}

fn line(s: &str) -> Option<(String, String)> {
    match_line(&s.chars().collect())
}

#[test]
fn match_line_reads_address_and_name() {
    assert_eq!(line("10.0.0.1 a.local"), Some(("a.local".to_string(), "10.0.0.1".to_string())));
    assert_eq!(line("  ::1\t\thost-1.example.com  "), Some(("host-1.example.com".to_string(), "::1".to_string())));
    assert_eq!(line("192.168.1.2 b.local\r"), Some(("b.local".to_string(), "192.168.1.2".to_string())));
}

#[test]
fn match_line_refuses_other_lines() {
    assert_eq!(line(""), None);
    assert_eq!(line("   "), None);
    assert_eq!(line("10.0.0.x a.local"), None);
    assert_eq!(line("999.1 a.local"), None);
    assert_eq!(line("10.0.0.1"), None);
    assert_eq!(line("10.0.0.1 a.local extra"), None);
    assert_eq!(line("# 10.0.0.1 a.local"), None);
    assert_eq!(line("10.0.0.1 -a.local"), None);
    assert_eq!(line("10.0.0.1 a-.local"), None);
    assert_eq!(line("10.0.0.1 a..local"), None);
    assert_eq!(line("10.0.0.1 a.local."), None);
    assert_eq!(line("10.0.0.1 a_b.local"), None);
}

#[test]
fn name_labels_are_at_most_63_characters() {
    let ok: String = "a".repeat(63);
    let long: String = "a".repeat(64);
    assert!(name_ok(&format!("{ok}.local").chars().collect()));
    assert!(!name_ok(&format!("{long}.local").chars().collect()));
    assert!(!name_ok(&format!("x.{long}").chars().collect()));
    assert!(name_ok(&"x".chars().collect()));
    assert!(!name_ok(&Vec::new()));
}

fn address(s: &str) -> bool {
    address_ok(&s.chars().collect())
}

#[test]
fn ipv4_addresses() {
    assert!(address("10.0.0.1"));
    assert!(address("0.0.0.0"));
    assert!(address("255.255.255.255"));
    assert!(!address("256.0.0.1"));
    assert!(!address("999.1"));
    assert!(!address("1.2.3"));
    assert!(!address("1.2.3.4.5"));
    assert!(!address("01.2.3.4"));
    assert!(!address("1..3.4"));
    assert!(!address("..."));
    assert!(!address(""));
}

#[test]
fn ipv6_addresses() {
    assert!(address("fe80::1"));
    assert!(address("::1"));
    assert!(address("::"));
    assert!(address("::ffff:a00:1"));
    assert!(address("::ffff:10.0.0.1"));
    assert!(address("2001:DB8:0:0:0:0:0:1"));
    assert!(address("1:2:3:4:5:6:7:8"));
    assert!(address("1:2:3:4:5:6:7::"));
    assert!(address("1:2:3:4:5:6:10.0.0.1"));
    assert!(!address("1::::"));
    assert!(!address("1::2::3"));
    assert!(!address("1:2:3:4:5:6:7"));
    assert!(!address("1:2:3:4:5:6:7:8:9"));
    assert!(!address("1:2:3:4:5:6:7:8::"));
    assert!(!address("12345::1"));
    assert!(!address("fe80::g"));
    assert!(!address(":1:2:3:4:5:6:7"));
    assert!(!address("1.2.3.4::"));
}

#[test]
fn chars_and_strings_convert() {
    let cs = chars_of("héllo");
    assert_eq!(cs, vec!['h', 'é', 'l', 'l', 'o']);
    assert_eq!(string_of(&cs), "héllo");
}

#[test]
fn parse_merges_addresses_of_one_name() {
    let t = parse_hosts("10.0.0.1 a.local\n10.0.0.2 a.local\n10.0.0.3 b.local\n10.0.0.1 a.local\n");
    assert_eq!(sorted_addresses(&t, "a.local"), vec!["10.0.0.1", "10.0.0.2"]);
    assert_eq!(sorted_addresses(&t, "b.local"), vec!["10.0.0.3"]);
    assert_eq!(t.pairs().len(), 3);
}

#[test]
fn parse_skips_a_malformed_line() {
    let t = parse_hosts("10.0.0.1 a.local\n10.0.0.x b.local\n");
    assert_eq!(sorted_addresses(&t, "a.local"), vec!["10.0.0.1"]);
    assert!(!t.contains_name(&"b.local".to_string()));
    assert_eq!(t.pairs().len(), 1);
}

#[test]
fn parse_reads_a_last_line_without_newline() {
    let t = parse_hosts("\n\n  10.0.0.1 a.local\n10.0.0.2 b.local");
    assert_eq!(sorted_addresses(&t, "a.local"), vec!["10.0.0.1"]);
    assert_eq!(sorted_addresses(&t, "b.local"), vec!["10.0.0.2"]);
}

#[test]
fn parse_of_empty_text_is_empty() {
    assert!(parse_hosts("").pairs().is_empty());
}

#[test]
fn format_writes_one_line_per_pair() {
    let mut t = HostTable::new();
    t.insert(&"a.local".to_string(), &"10.0.0.1".to_string());
    t.insert(&"a.local".to_string(), &"10.0.0.2".to_string());
    t.insert(&"b.local".to_string(), &"::1".to_string());
    assert_eq!(format_records(&t), "10.0.0.1 a.local\n10.0.0.2 a.local\n::1 b.local\n");
    assert_eq!(format_records(&HostTable::new()), "");
}

#[test]
fn format_then_parse_gives_the_table_back() {
    let mut t = HostTable::new();
    t.insert(&"a.local".to_string(), &"10.0.0.1".to_string());
    t.insert(&"b.example.org".to_string(), &"fe80::1".to_string());
    t.insert(&"a.local".to_string(), &"10.0.0.2".to_string());
    let back = parse_hosts(&format_records(&t));
    assert!(back.same_as(&t));
    assert_eq!(format_records(&back), format_records(&t));
}

#[test]
fn skipped_lines_are_the_malformed_non_blank_ones() {
    let text = "10.0.0.1 a.local\n  \n10.0.0.x b.local\n# comment\n\n10.0.0.2 c.local";
    assert_eq!(skipped_lines(text), vec!["10.0.0.x b.local", "# comment"]);
    assert!(skipped_lines("").is_empty());
    assert!(skipped_lines("10.0.0.1 a.local\n").is_empty());
}

#[test]
fn parse_keeps_ipv6_lines() {
    let t = parse_hosts("fe80::1 a.local\n::1 b.local\n");
    assert_eq!(sorted_addresses(&t, "a.local"), vec!["fe80::1"]);
    assert_eq!(sorted_addresses(&t, "b.local"), vec!["::1"]);
}

#[test]
fn parse_skips_a_line_whose_address_is_no_literal() {
    let t = parse_hosts("999.1 a.local\n10.0.0.1 b.local\n");
    assert!(!t.contains_name(&"a.local".to_string()));
    assert_eq!(sorted_addresses(&t, "b.local"), vec!["10.0.0.1"]);
}

#[test]
fn equal_tables_give_the_same_text() {
    let mut a = HostTable::new();
    a.insert(&"b.local".to_string(), &"10.0.0.2".to_string());
    a.insert(&"a.local".to_string(), &"10.0.0.9".to_string());
    a.insert(&"a.local".to_string(), &"10.0.0.10".to_string());
    let mut b = HostTable::new();
    b.insert(&"a.local".to_string(), &"10.0.0.10".to_string());
    b.insert(&"a.local".to_string(), &"10.0.0.9".to_string());
    b.insert(&"b.local".to_string(), &"10.0.0.2".to_string());
    assert_eq!(format_records(&a), format_records(&b));
    assert_eq!(format_records(&a), "10.0.0.10 a.local\n10.0.0.9 a.local\n10.0.0.2 b.local\n");
}

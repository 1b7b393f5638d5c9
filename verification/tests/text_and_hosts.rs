use std::sync::Arc;

use cs_ping::host::{retain_allowed, Host};
use cs_ping::util::{replace, replace_all, trim_str, trim_string};

#[test]
fn replace_every_occurrence() {
    assert_eq!(replace("a.b.c", ".", "-"), "a-b-c");
    assert_eq!(replace("aaa", "aa", "b"), "ba");
    assert_eq!(replace("abc", "x", "y"), "abc");
    assert_eq!(replace("", "x", "y"), "");
}

#[test]
fn replace_empty_pattern_matches_between_characters() {
    assert_eq!(replace("abc", "", "-"), "-a-b-c-");
    assert_eq!(replace("", "", "-"), "-");
    assert_eq!(replace("äö", "", "."), ".ä.ö.");
}

#[test]
fn replace_all_applies_pairs_in_order() {
    let r = replace_all("{{ A }} {{ B }}".to_string(), &[("{{ A }}", "{{ B }}"), ("{{ B }}", "x")]);
    assert_eq!(r, "x x");
    let r = replace_all("keep".to_string(), &[]);
    assert_eq!(r, "keep");
}

#[test]
fn trim_counts_characters_not_bytes() {
    assert_eq!(trim_string("héllo".to_string(), 2), "hé");
    assert_eq!(trim_string("abc".to_string(), 3), "abc");
    assert_eq!(trim_string("abc".to_string(), 0), "");
    assert_eq!(trim_str("frankfurt", 8), "frankfur");
    assert_eq!(trim_str("oslo", 8), "oslo");
    assert_eq!(trim_str("ßßßß", 2), "ßß");
}

fn host(location: &str, key: &str) -> Host {
    Host { location: location.to_string(), public_key: key.to_string() }
}

#[test]
fn from_confgen_reads_quoted_lines() {
    let confgen = "#!/bin/bash\nservers=(\n\"frankfurt:abc+/=\"\n\"oslo:k:e\"y\"\n  \"indented:x\"\n\"tokyo:\"\n\"bad location:x\"\n\":nokey\"\n)\n\"last:z\"";
    let hosts = Host::from_confgen(confgen);
    let got: Vec<(String, String)> = hosts.iter().map(|h| (h.location.clone(), h.public_key.clone())).collect();
    assert_eq!(
        got,
        vec![
            ("frankfurt".to_string(), "abc+/=".to_string()),
            ("oslo".to_string(), "k:e\"y".to_string()),
            ("tokyo".to_string(), "".to_string()),
            ("last".to_string(), "z".to_string()),
        ]
    );
}

#[test]
fn from_confgen_needs_the_quote_at_the_end_of_the_line() {
    let hosts = Host::from_confgen("\"a:b\"\r\n\"c:d\" \n\"e_1:f\"\n");
    assert_eq!(hosts.len(), 1);
    assert_eq!(hosts[0].location, "e_1");
    assert_eq!(hosts[0].public_key, "f");
    assert!(Host::from_confgen("").is_empty());
    assert!(Host::from_confgen("\"\"\n\"a\"\n\"a:\n").is_empty());
}

#[test]
fn from_confgen_accepts_unicode_word_characters() {
    let hosts = Host::from_confgen("\"zürich:k\"\n\"a-b:k\"\n");
    assert_eq!(hosts.len(), 1);
    assert_eq!(hosts[0].location, "zürich");
}

#[test]
fn from_confgen_round_trip() {
    let list = vec![host("london", "K1="), host("new_york2", "a\"b:c"), host("x", "")];
    let mut text = String::new();
    for h in &list {
        text.push_str(&format!("\"{}:{}\"\n", h.location, h.public_key));
    }
    let back = Host::from_confgen(&text);
    assert_eq!(back.len(), list.len());
    for (a, b) in back.iter().zip(list.iter()) {
        assert_eq!(**a, *b);
    }
}

#[test]
fn url_and_endpoint() {
    let h = host("amsterdam", "k");
    assert_eq!(h.to_url(), "amsterdam.cstorm.is");
    assert_eq!(h.to_endpoint(), "amsterdam.cstorm.is:443");
    assert_eq!(h.to_endpoint(), format!("{}:443", h.to_url()));
}

#[test]
fn clone_keeps_both_fields() {
    let h = host("paris", "key");
    assert_eq!(h.clone(), h);
}

#[test]
fn blacklisted_locations_are_dropped() {
    let hosts = vec![Arc::new(host("a", "1")), Arc::new(host("mexico", "2")), Arc::new(host("b", "3"))];
    let kept = retain_allowed(hosts, &vec!["mexico".to_string(), "nowhere".to_string()]);
    let names: Vec<&str> = kept.iter().map(|h| h.location.as_str()).collect();
    assert_eq!(names, vec!["a", "b"]);
    let kept = retain_allowed(vec![Arc::new(host("a", "1"))], &vec![]);
    assert_eq!(kept.len(), 1);
}

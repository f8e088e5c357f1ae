use std::hash::{Hash, Hasher};

use assetcanon::classify::{classify, classify_given, classify_str, registrable_from};
use assetcanon::model::{Asset, AssetKind};
use assetcanon::normalize::normalize;
use assetcanon::psl::SuffixList;

const SUFFIXES: &str = "\
// ===BEGIN ICANN DOMAINS===\n\
com\n\
org\n\
net\n\
nl\n\
uk\n\
co.uk\n\
*.ck\n\
!www.ck\n\
// ===END ICANN DOMAINS===\n";

fn list() -> SuffixList {
    SuffixList::parse(SUFFIXES).unwrap()
}

fn classified(raw: &str) -> Asset {
    classify_str(raw, &list())
}

#[test]
fn apex_and_subdomain() {
    assert_eq!(classified("example.com").kind, AssetKind::Apex);
    assert_eq!(classified("api.example.com").kind, AssetKind::Subdomain);
    assert_eq!(
        classified("api.example.com").registrable.as_deref(),
        Some("example.com")
    );
}

#[test]
fn wildcard() {
    let a = classified("*.example.com");
    assert_eq!(a.kind, AssetKind::Wildcard);
    assert_eq!(a.canonical, "*.example.com");
}

#[test]
fn ipv4_and_ipv6() {
    assert_eq!(classified("192.168.1.1").kind, AssetKind::Ip);
    assert_eq!(classified("::1").kind, AssetKind::Ip);
    let bracket = classified("[2001:db8::1]:8080");
    assert_eq!(bracket.kind, AssetKind::Ip);
    assert_eq!(bracket.canonical, "[2001:db8::1]:8080");
}

#[test]
fn idn_is_normalized() {
    let a = classified("中文.com");
    assert_eq!(a.kind, AssetKind::Apex);
    assert_eq!(a.canonical, "xn--fiq228c.com");
}

#[test]
fn garbage() {
    assert_eq!(classified("https://").kind, AssetKind::Garbage);
    assert_eq!(classified("not a domain").kind, AssetKind::Garbage);
    assert_eq!(classified("").kind, AssetKind::Garbage);
}

#[test]
fn suffix_rules_decide_the_registrable_domain() {
    assert_eq!(classified("a.b.co.uk").registrable.as_deref(), Some("b.co.uk"));
    assert_eq!(classified("b.co.uk").kind, AssetKind::Apex);
    assert_eq!(classified("co.uk").kind, AssetKind::Garbage);
    assert_eq!(classified("a.b.c.ck").registrable.as_deref(), Some("b.c.ck"));
    assert_eq!(classified("a.www.ck").registrable.as_deref(), Some("www.ck"));
    assert_eq!(classified("x.y.unlisted").registrable.as_deref(), Some("y.unlisted"));
    assert!(SuffixList::parse("no rules").is_none());
    assert_eq!(list().domain("a.b.com").as_deref(), Some("b.com"));
    assert_eq!(list().domain("com"), None);
}

#[test]
fn each_refusal_has_its_reason() {
    let reason = |s: &str| classified(s).reason.unwrap();
    assert_eq!(reason(""), "empty");
    assert_eq!(reason("  "), "empty");
    assert_eq!(reason("foo@bar.com"), "contains-at");
    assert_eq!(reason("a b.com"), "contains-space");
    assert_eq!(reason("https://"), "missing-host");
    assert_eq!(reason("http://[::1"), "unparseable");
    assert_eq!(reason("[::1]x"), "invalid-ipv6-port");
    assert_eq!(reason("example.com:0"), "invalid-port");
    assert_eq!(reason("example.com:65536"), "invalid-port");
    assert_eq!(reason("1:2:3"), "invalid-ipv6");
    assert_eq!(reason("*."), "invalid-idna");
    assert_eq!(reason("localhost"), "invalid-domain-syntax");
    assert_eq!(reason("-a.com"), "invalid-domain-syntax");
    assert_eq!(reason("com.co.uk.com.*"), "invalid-domain-syntax");
    assert_eq!(reason("co.uk"), "invalid-domain");
    assert_eq!(reason("*.co.uk"), "invalid-wildcard-domain");
    let long = format!("{}.com", "a".repeat(64));
    assert_eq!(reason(&long), "invalid-domain-syntax");
    let label = format!("{}.com", "a".repeat(63));
    assert_eq!(classified(&label).kind, AssetKind::Apex);
}

#[test]
fn garbage_is_keyed_by_a_stable_digest() {
    let a = classified("not a domain");
    let b = Asset::garbage("not a domain".to_string(), "x".to_string());
    assert_eq!(a.canonical, b.canonical);
    assert_eq!(a.canonical.len(), 16);
    assert!(a.canonical.chars().all(|c| c.is_ascii_hexdigit()));
    assert_eq!(a.canonical_key(), format!("garbage:{}", a.canonical));
    assert_ne!(a.canonical, classified("not a domain!").canonical);
}

#[test]
fn garbage_digest_is_the_default_hash_of_the_text() {
    let mut h = std::collections::hash_map::DefaultHasher::new();
    "foo bar".hash(&mut h);
    assert_eq!(classified("foo bar").canonical, format!("{:016x}", h.finish()));
}

#[test]
fn keys_tell_kind_form_and_port() {
    assert_eq!(classified("example.com").canonical_key(), "apex:example.com");
    assert_eq!(
        classified("api.example.com:8443").canonical_key(),
        "subdomain:api.example.com:8443:8443"
    );
    assert_eq!(classified("10.0.0.1").canonical_key(), "ip:10.0.0.1");
    assert_eq!(
        classified("[::1]:53").canonical_key(),
        "ip:[[::1]:53]:53"
    );
    assert!(classified("example.com").is_host());
    assert!(!classified("*.example.com").is_host());
}

#[test]
fn classification_takes_the_lookup_result() {
    let a = classify_given(normalize("a.b.com"), Some("b.com".to_string()));
    assert_eq!(a.kind, AssetKind::Subdomain);
    let a = classify_given(normalize("b.com"), Some("b.com".to_string()));
    assert_eq!(a.kind, AssetKind::Apex);
    let a = classify_given(normalize("b.com"), None);
    assert_eq!(a.reason.as_deref(), Some("invalid-domain"));
    assert_eq!(registrable_from(Some("B.Com".to_string())).as_deref(), Some("b.com"));
    assert_eq!(registrable_from(Some("com".to_string())), None);
    assert_eq!(registrable_from(None), None);
    assert_eq!(classify(normalize("B.com"), &list()).canonical, "b.com");
}

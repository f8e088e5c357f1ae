use assetcanon::cdn::parse_table;
use assetcanon::classify::classify_str;
use assetcanon::dns::answers::{merge_answers, HostAnswers};
use assetcanon::dns::decision::WildcardSignature;
use assetcanon::dns::validator::judge_host;
use assetcanon::dns::zones::parent_of;
use assetcanon::ip::IpAddr;
use assetcanon::model::{Asset, AssetKind, DnsStatus};
use assetcanon::normalize::normalize;
use assetcanon::output::{dns_bucket, dns_explanation, DnsBucket};
use assetcanon::psl::SuffixList;
use assetcanon::scope::ScopeMatcher;

const SUFFIXES: &str = "\
// ===BEGIN ICANN DOMAINS===\n\
com\n\
org\n\
net\n\
nl\n\
uk\n\
co.uk\n\
*.ck\n\
!www.ck\n\
// ===END ICANN DOMAINS===\n";

fn list() -> SuffixList {
    SuffixList::parse(SUFFIXES).unwrap()
}

fn classified(raw: &str) -> Asset {
    classify_str(raw, &list())
}

fn ip(s: &str) -> IpAddr {
    IpAddr::parse(s).unwrap()
}

fn found(ips: &[&str], cnames: &[&str]) -> HostAnswers {
    HostAnswers {
        ips: ips.iter().map(|s| ip(s)).collect(),
        cnames: cnames.iter().map(|s| s.to_string()).collect(),
        any_answer: true,
        ..Default::default()
    }
}

fn signature() -> WildcardSignature {
    WildcardSignature {
        root: "example.com".to_string(),
        ips: vec![ip("104.16.1.1"), ip("1.2.3.4")],
        cnames: vec!["w.example.net".to_string()],
    }
}

fn judged(answers: &HostAnswers) -> Asset {
    let table = parse_table("cloudflare 104.16.0.0/13\n");
    judge_host(classified("api.example.com:8443"), answers, Some(&signature()), true, &table)
}

#[test]
fn canonical_forms_are_classified_as_themselves() {
    for raw in [
        "https://API.Example.com:8443/x",
        "*.Foo.ORG.",
        "//foo.org",
        "Example.com:81",
        "[2001:DB8:0:0::1]:53",
        "http://10.0.0.1:8080/",
        "::ffff:1.2.3.4",
        "xn--fiq228c.com",
        "3Com.example.com",
        "*.R3---sn--x.example.com:81",
        "1.2.3.com",
    ] {
        let first = classified(raw);
        assert_ne!(first.kind, AssetKind::Garbage, "{raw}");
        let again = classified(&first.canonical);
        assert_eq!(again.canonical, first.canonical, "{raw}");
        assert_eq!(again.kind, first.kind, "{raw}");
        assert_eq!(again.registrable, first.registrable, "{raw}");
        assert_eq!(again.port, first.port, "{raw}");
    }
}

#[test]
fn plain_hosts_and_addresses_are_normal() {
    for raw in [
        "a.b-c.example.com",
        "*.example.com",
        "example.com:65535",
        "3com.com",
        "r3---sn.example.com:80",
        "10.0.0.1.example.com",
        "10.0.0.1:1",
        "::1",
    ] {
        let n = normalize(raw);
        assert!(n.valid, "{raw}");
        let shown = assetcanon::normalize::canonical_value(&n.host, n.port);
        assert_eq!(shown, raw);
        assert_eq!(n.scheme, None);
    }
}

#[test]
fn canonical_names_are_lowercase_ascii() {
    let a = classified("HTTP://BÜCHER.Example.COM:8080");
    assert_eq!(a.canonical, "xn--bcher-kva.example.com:8080");
    assert_eq!(a.registrable.as_deref(), Some("example.com"));
    assert_eq!(a.reason, None);
}

#[test]
fn merging_one_answer_changes_nothing() {
    let one = found(&["1.2.3.4"], &["x.net", "y.net"]);
    let merged = merge_answers(&vec![one.duplicate()]);
    assert_eq!(merged.ips, one.ips);
    assert_eq!(merged.cnames, one.cnames);
    assert!(merged.any_answer && !merged.all_nxdomain && !merged.disagreement);
}

#[test]
fn resolved_hosts_are_trusted() {
    let a = judged(&found(&["9.9.9.9"], &[]));
    assert_eq!(a.dns, DnsStatus::Resolved);
    assert_eq!(dns_bucket(&a), DnsBucket::Trusted);
}

#[test]
fn cdn_overlap_is_to_be_looked_at() {
    let a = judged(&found(&["104.16.1.1"], &[]));
    assert_eq!(a.cdn.as_deref(), Some("cloudflare"));
    assert_eq!(dns_bucket(&a), DnsBucket::Review);
}

#[test]
fn wildcard_hosts_are_ignored() {
    assert_eq!(dns_bucket(&judged(&found(&["1.2.3.4"], &[]))), DnsBucket::Ignore);
    assert_eq!(dns_bucket(&judged(&found(&["9.9.9.9"], &["w.example.net"]))), DnsBucket::Ignore);
}

#[test]
fn judging_keeps_what_identifies_an_asset() {
    let before = classified("api.example.com:8443");
    let after = judged(&found(&["9.9.9.9", "1.1.1.1"], &["t.net"]));
    assert_eq!(after.raw, before.raw);
    assert_eq!(after.canonical, before.canonical);
    assert_eq!(after.kind, before.kind);
    assert_eq!(after.port, before.port);
    assert_eq!(after.ips, vec![ip("1.1.1.1"), ip("9.9.9.9")]);
    assert_eq!(after.cnames, vec!["t.net".to_string()]);
}

#[test]
fn more_rules_match_no_less() {
    let few = vec!["example.com".to_string()];
    let many = vec!["example.com".to_string(), "*.example.com".to_string()];
    let asset = classified("a.example.com");
    let hits = ScopeMatcher::compile(&few, &list()).matches(&asset, false);
    let more = ScopeMatcher::compile(&many, &list()).matches(&asset, false);
    assert_eq!(hits, few);
    assert!(hits.iter().all(|h| more.contains(h)));
    assert_eq!(more.len(), 2);
}

#[test]
fn parents_are_proper_zones() {
    let mut host = "a.b.c.example.com".to_string();
    let mut seen = Vec::new();
    while let Some(p) = parent_of(&host) {
        assert!(p.len() < host.len() && p.contains('.'));
        seen.push(p.clone());
        host = p;
    }
    assert_eq!(seen, vec!["b.c.example.com", "c.example.com", "example.com"]);
}

#[test]
fn capitals_are_lowered() {
    for (raw, canonical) in [
        ("Example.COM", "example.com"),
        ("*.API.Example.com:8443", "*.api.example.com:8443"),
        ("XN--Bcher-KVA.com", "xn--bcher-kva.com"),
    ] {
        let n = normalize(raw);
        assert_eq!(assetcanon::normalize::canonical_value(&n.host, n.port), canonical);
        let a = classified(raw);
        assert_eq!(a.canonical, canonical);
        assert_eq!(classified(canonical).kind, a.kind);
    }
}

#[test]
fn a_wildcard_over_an_address_is_not_stable() {
    let first = classified("http://*. 10.0.0.1/");
    assert_eq!((first.kind, first.canonical.as_str()), (AssetKind::Wildcard, "*.10.0.0.1"));
    let again = classified(&first.canonical);
    assert_eq!((again.kind, again.canonical.as_str()), (AssetKind::Ip, "10.0.0.1"));
}

#[test]
fn the_matching_cname_is_explained() {
    let a = judged(&found(&["9.9.9.9"], &["alias.example.org", "w.example.net"]));
    assert_eq!(a.wildcard_cname.as_deref(), Some("w.example.net"));
    assert_eq!(a.cnames.len(), 2);
    assert!(dns_explanation(&a).contains(&"cname=w.example.net".to_string()));
    let b = judged(&found(&["1.2.3.4"], &["alias.example.org"]));
    assert_eq!(b.wildcard_cname, None);
}

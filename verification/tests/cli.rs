use assetcanon::classify::classify_str;
use assetcanon::dns::config::{DnsConfig, Ratio};
use assetcanon::dns::stats::{
    DnsShortCircuitStats, DnsStats, DnsStatusStats, ResolverDisagreementStats, SignatureParentStats,
    WildcardDecisionStats,
};
use assetcanon::ip::SocketAddr;
use assetcanon::model::{Asset, AssetKind, Confidence, DnsStatus, WildcardReason};
use assetcanon::options::{
    add_file_resolvers, add_inline_resolvers, apply_fast_dns_preset, apply_strict_dns_preset,
    build_dns_config, build_resolver_check_config, clean_resolver_line, flaky_threshold_for_report,
    parse_resolver, push_resolver_unique, resolver_choice, resolver_error_text, DnsOptions,
    ResolverError,
};
use assetcanon::output::{
    apex_names, canonical_for_output, choose_selection, classify_line, dns_bucket, dns_bucket_str,
    dns_explanation, dns_line, dns_stats_lines, dns_status_str, opt_ms, output_class, parse_status,
    scope_line, zone_lines, DnsBucket, DnsOutputClass, DnsSelection, SelectionError,
};
use assetcanon::psl::SuffixList;

const SUFFIXES: &str = "\
// ===BEGIN ICANN DOMAINS===\n\
com\n\
org\n\
net\n\
nl\n\
uk\n\
co.uk\n\
*.ck\n\
!www.ck\n\
// ===END ICANN DOMAINS===\n";

fn list() -> SuffixList {
    SuffixList::parse(SUFFIXES).unwrap()
}

fn classified(raw: &str) -> Asset {
    classify_str(raw, &list())
}

fn strings(v: &[&str]) -> Vec<String> {
    v.iter().map(|s| s.to_string()).collect()
}

fn socket(s: &str) -> SocketAddr {
    SocketAddr::parse(s).unwrap()
}

fn options() -> DnsOptions {
    DnsOptions {
        resolvers: None,
        fast: false,
        strict: false,
        concurrency: None,
        timeout_secs: None,
        retries: None,
        wildcard_tests: None,
        no_wildcard_filter: false,
        consistency_checks: None,
        probe_concurrency: None,
        flaky_threshold: None,
        flaky_min_samples: None,
        no_skip_zones: false,
        no_infer_wildcard_timeout: false,
    }
}

#[test]
fn resolver_parser_defaults_bare_ips_to_53() {
    assert_eq!(parse_resolver("1.1.1.1").unwrap(), socket("1.1.1.1:53"));
    assert_eq!(
        parse_resolver("2606:4700:4700::1111").unwrap(),
        socket("[2606:4700:4700::1111]:53")
    );
    assert_eq!(parse_resolver("1::1").unwrap(), socket("[1::1]:53"));
}

#[test]
fn resolver_parser_accepts_explicit_ports() {
    assert_eq!(parse_resolver("8.8.8.8:5353").unwrap(), socket("8.8.8.8:5353"));
    assert_eq!(
        parse_resolver("[2001:4860:4860::8888]:53").unwrap(),
        socket("[2001:4860:4860::8888]:53")
    );
}

#[test]
fn resolver_parser_names_what_is_wrong() {
    assert_eq!(parse_resolver("  "), Err(ResolverError::Empty));
    assert_eq!(parse_resolver("dns.example"), Err(ResolverError::Malformed));
    assert_eq!(resolver_error_text(ResolverError::Empty), "empty resolver");
    assert_eq!(
        resolver_error_text(ResolverError::Malformed),
        "expected ip, ip:port, or [ipv6]:port"
    );
}

#[test]
fn resolver_file_lines_ignore_comments_and_blanks() {
    assert_eq!(clean_resolver_line("  # comment"), None);
    assert_eq!(clean_resolver_line(""), None);
    assert_eq!(clean_resolver_line("  9.9.9.9  # quad9").as_deref(), Some("9.9.9.9"));
    assert_eq!(
        clean_resolver_line("\t1.1.1.1\t# cloudflare").as_deref(),
        Some("1.1.1.1")
    );
    assert_eq!(clean_resolver_line("8.8.8.8:53   ").as_deref(), Some("8.8.8.8:53"));
}

#[test]
fn resolver_lists_are_read_in_order() {
    let mut list: Vec<SocketAddr> = Vec::new();
    add_inline_resolvers(&mut list, "1.1.1.1, ,8.8.8.8:53,1.1.1.1:53").unwrap();
    add_file_resolvers(&mut list, "# pool\n9.9.9.9 # quad9\n\n8.8.8.8\r\n").unwrap();
    assert_eq!(
        list,
        vec![socket("1.1.1.1:53"), socket("8.8.8.8:53"), socket("9.9.9.9:53")]
    );
    push_resolver_unique(&mut list, socket("9.9.9.9:53"));
    assert_eq!(list.len(), 3);
    let bad = add_inline_resolvers(&mut list, "4.4.4.4,x,y").unwrap_err();
    assert_eq!((bad.number, bad.text.as_str(), bad.error), (2, "x", ResolverError::Malformed));
    let bad = add_file_resolvers(&mut list, "# a\n\n host # b\n").unwrap_err();
    assert_eq!((bad.number, bad.text.as_str()), (3, "host"));
}

#[test]
fn dns_fast_preset_raises_parallelism() {
    let mut cfg = DnsConfig::default();
    apply_fast_dns_preset(&mut cfg);
    assert_eq!(cfg.concurrency, 200);
    assert_eq!(cfg.probe_concurrency, 100);
    assert_eq!(cfg.wildcard_tests, 8);
}

#[test]
fn dns_strict_preset_disables_inference_and_flaky_short_circuit() {
    let mut cfg = DnsConfig::default();
    apply_strict_dns_preset(&mut cfg);
    assert!(!cfg.infer_wildcard_on_timeout);
    assert_eq!(cfg.flaky_min_samples, 0);
}

#[test]
fn zone_short_cuts_can_be_switched_off() {
    assert!(build_dns_config(options()).skip_dead_zones);
    let mut strict = options();
    strict.strict = true;
    let mut asked = options();
    asked.no_skip_zones = true;
    asked.flaky_min_samples = Some(3);
    for o in [strict, asked] {
        let cfg = build_dns_config(o);
        assert!(!cfg.skip_dead_zones);
        assert!(!cfg.flaky_enabled());
    }
}

#[test]
fn dns_option_overrides_apply_after_presets_independent_of_cli_order() {
    let mut args_a = options();
    args_a.fast = true;
    args_a.concurrency = Some(300);
    args_a.probe_concurrency = Some(120);
    let mut args_b = options();
    args_b.concurrency = Some(300);
    args_b.probe_concurrency = Some(120);
    args_b.fast = true;

    let cfg_a = build_dns_config(args_a);
    let cfg_b = build_dns_config(args_b);

    assert_eq!(cfg_a.concurrency, 300);
    assert_eq!(cfg_a.probe_concurrency, 120);
    assert_eq!(cfg_a.concurrency, cfg_b.concurrency);
    assert_eq!(cfg_a.probe_concurrency, cfg_b.probe_concurrency);
    assert_eq!(cfg_a.wildcard_tests, cfg_b.wildcard_tests);
}

#[test]
fn options_have_floors_and_switches() {
    let mut o = options();
    o.resolvers = Some(vec![socket("9.9.9.9:53")]);
    o.concurrency = Some(0);
    o.timeout_secs = Some(0);
    o.retries = Some(0);
    o.wildcard_tests = Some(0);
    o.consistency_checks = Some(0);
    o.no_wildcard_filter = true;
    o.no_skip_zones = true;
    o.flaky_min_samples = Some(4);
    o.flaky_threshold = Some(Ratio { num: 1, den: 2 });
    o.no_infer_wildcard_timeout = true;
    let c = build_dns_config(o);
    assert_eq!(c.resolvers, vec![socket("9.9.9.9:53")]);
    assert_eq!((c.concurrency, c.timeout_secs, c.retries), (1, 1, 1));
    assert_eq!((c.wildcard_tests, c.consistency_checks), (1, 1));
    assert!(!c.wildcard_filter);
    assert_eq!(c.flaky_min_samples, 0);
    assert_eq!(c.flaky_threshold, Ratio { num: 8, den: 10 });
    assert!(!c.infer_wildcard_on_timeout);
    let mut o = options();
    o.strict = true;
    o.flaky_min_samples = Some(4);
    o.flaky_threshold = Some(Ratio { num: 1, den: 2 });
    let c = build_dns_config(o);
    assert_eq!(c.flaky_min_samples, 4);
    assert_eq!(c.flaky_threshold, Ratio { num: 1, den: 2 });
    assert_eq!(flaky_threshold_for_report(None), Ratio { num: 8, den: 10 });
    let check = build_resolver_check_config(Vec::new(), 0, None);
    assert_eq!((check.rounds, check.concurrency), (1, 0));
    assert_eq!(check.positive_domains, strings(&["example.com", "iana.org"]));
    let check = build_resolver_check_config(strings(&["x.com"]), 3, Some(2));
    assert_eq!((check.rounds, check.concurrency), (3, 2));
    assert_eq!(check.positive_domains, strings(&["x.com"]));
}

#[test]
fn dns_bucket_routes_default_review_and_ignore_classes() {
    let mut trusted = classified("trusted.example.com");
    trusted.dns = DnsStatus::Resolved;
    trusted.confidence = Some(Confidence::hundredths(95));
    assert_eq!(dns_bucket(&trusted), DnsBucket::Trusted);
    assert!(DnsOutputClass::Trusted.includes(&trusted));

    let mut review = classified("review.example.com");
    review.dns = DnsStatus::MixedWildcard;
    review.wildcard_reason = Some(WildcardReason::IpOverlap);
    review.confidence = Some(Confidence::hundredths(50));
    assert_eq!(dns_bucket(&review), DnsBucket::Review);
    assert!(DnsOutputClass::Review.includes(&review));
    assert!(!DnsOutputClass::Trusted.includes(&review));

    let mut fake = classified("fake.example.com");
    fake.dns = DnsStatus::WildcardCname;
    fake.wildcard_reason = Some(WildcardReason::CnameMatch);
    fake.confidence = Some(Confidence::hundredths(95));
    assert_eq!(dns_bucket(&fake), DnsBucket::Ignore);
    assert!(!DnsOutputClass::Trusted.includes(&fake));
    assert!(!DnsOutputClass::Review.includes(&fake));
    assert!(DnsOutputClass::All.includes(&fake));
}

#[test]
fn dns_explanation_formats_wildcard_and_zone_fields() {
    let mut asset = classified("api.example.com");
    asset.dns = DnsStatus::WildcardCname;
    asset.wildcard_root = Some("*.example.com".into());
    asset.wildcard_reason = Some(WildcardReason::CnameMatch);
    asset.cnames = vec!["cdn.example.net".into()];
    asset.wildcard_cname_overlap_count = 1;
    asset.wildcard_signature_cname_count = 2;
    asset.resolver_disagreement = true;
    asset.dead_zone = Some("old.example.com".into());
    asset.flaky_zone = Some("preview.example.com".into());

    assert_eq!(
        dns_explanation(&asset),
        vec![
            "root=*.example.com".to_string(),
            "reason=cname_match".to_string(),
            "cname=cdn.example.net".to_string(),
            "cname_overlap=1".to_string(),
            "signature_cnames=2".to_string(),
            "resolver_disagreement=true".to_string(),
            "dead_zone=old.example.com".to_string(),
            "flaky_zone=preview.example.com".to_string(),
        ]
    );
}

#[test]
fn explained_lines_show_class_status_and_evidence() {
    let mut a = classified("api.example.com:8443");
    a.dns = DnsStatus::MixedWildcard;
    a.wildcard_root = Some("*.example.com".into());
    a.wildcard_reason = Some(WildcardReason::IpOverlap);
    a.wildcard_ip_overlap_count = 1;
    a.wildcard_host_ip_count = 1;
    a.wildcard_signature_ip_count = 3;
    a.cdn = Some("cloudflare".into());
    a.confidence = Some(Confidence::hundredths(50));
    assert_eq!(
        dns_line(&a, true, true),
        "api.example.com\treview\tmixed_wildcard\troot=*.example.com reason=ip_overlap ip_overlap=1 host_ips=1 signature_ips=3 cdn=cloudflare confidence=0.50"
    );
    assert_eq!(dns_line(&a, false, false), "api.example.com:8443");
    let plain = classified("example.com");
    assert_eq!(dns_line(&plain, false, true), "example.com\tignore\tunknown");
    assert_eq!(dns_bucket_str(DnsBucket::Trusted), "trusted");
}

#[test]
fn confidences_are_compared_and_written_exactly() {
    assert_eq!(Confidence::hundredths(100).to_text(), "1.00");
    assert_eq!(Confidence::hundredths(5).to_text(), "0.05");
    assert_eq!(Confidence::new(2, 3).to_text(), "0.67");
    assert_eq!(Confidence::new(1, 8).to_text(), "0.12");
    assert_eq!(Confidence::new(3, 8).to_text(), "0.38");
    assert!(Confidence::new(4, 5).is_at_least(80));
    assert!(!Confidence::new(799, 1000).is_at_least(80));
    let mut a = classified("a.example.com");
    a.dns = DnsStatus::Resolved;
    assert_eq!(dns_bucket(&a), DnsBucket::Review);
    a.confidence = Some(Confidence::hundredths(79));
    assert_eq!(dns_bucket(&a), DnsBucket::Review);
    a.dns = DnsStatus::WildcardIp;
    assert_eq!(dns_bucket(&a), DnsBucket::Ignore);
    a.wildcard_reason = Some(WildcardReason::TimeoutInferred);
    assert_eq!(dns_bucket(&a), DnsBucket::Review);
}

#[test]
fn statuses_are_read_and_written() {
    for s in [
        DnsStatus::Unknown,
        DnsStatus::Resolved,
        DnsStatus::Unresolved,
        DnsStatus::WildcardIp,
        DnsStatus::WildcardCname,
        DnsStatus::MixedWildcard,
        DnsStatus::Shaky,
        DnsStatus::Timeout,
        DnsStatus::Error,
    ] {
        assert_eq!(parse_status(dns_status_str(&s)), Ok(s));
    }
    assert_eq!(parse_status(" WildcardIp "), Ok(DnsStatus::WildcardIp));
    assert_eq!(parse_status("mixedwildcard"), Ok(DnsStatus::MixedWildcard));
    assert_eq!(parse_status(" Nope "), Err("nope".to_string()));
}

#[test]
fn selections_keep_what_is_asked_for() {
    let mut a = classified("a.example.com");
    a.dns = DnsStatus::Timeout;
    let mut b = classified("b.example.com");
    b.dns = DnsStatus::Shaky;
    let both = || vec![a.duplicate(), b.duplicate()];
    let review = DnsSelection::Class(output_class(false, true)).keep(both());
    assert_eq!(review.len(), 1);
    assert_eq!(review[0].canonical, "b.example.com");
    assert_eq!(DnsSelection::Class(output_class(true, true)).keep(both()).len(), 2);
    assert_eq!(DnsSelection::Class(output_class(false, false)).keep(both()).len(), 0);
    let lost = DnsSelection::Statuses(vec![DnsStatus::Timeout]).keep(both());
    assert_eq!(lost.len(), 1);
    assert_eq!(lost[0].canonical, "a.example.com");
}

#[test]
fn selections_name_statuses_or_a_class() {
    let chosen = choose_selection(&strings(&["shaky", "Timeout"]), false, false, false).unwrap();
    assert!(matches!(
        chosen,
        DnsSelection::Statuses(v) if v == vec![DnsStatus::Shaky, DnsStatus::Timeout]
    ));
    let chosen = choose_selection(&Vec::new(), false, true, false).unwrap();
    assert!(matches!(chosen, DnsSelection::Class(DnsOutputClass::Review)));
    let wrong = choose_selection(&strings(&["shaky"]), false, false, true);
    assert_eq!(wrong.err(), Some(SelectionError::Conflict));
    let wrong = choose_selection(&strings(&["shaky", " Lost ", "x"]), false, false, false);
    assert_eq!(wrong.err(), Some(SelectionError::UnknownStatus("lost".to_string())));
}

#[test]
fn an_empty_resolver_list_is_refused() {
    assert_eq!(resolver_choice(false, Vec::new()), Ok(None));
    assert_eq!(resolver_choice(true, Vec::new()), Err(ResolverError::Empty));
    let list = vec![socket("9.9.9.9:53")];
    assert_eq!(resolver_choice(true, list.clone()), Ok(Some(list)));
}

#[test]
fn zones_are_listed_under_a_heading() {
    assert_eq!(
        zone_lines("dead zones", " (x)", &strings(&["a.com", "b.com"])),
        strings(&["# dead zones (2 detected (x)):", "  a.com", "  b.com"])
    );
    assert!(zone_lines("dead zones", "", &Vec::new()).is_empty());
}

#[test]
fn apexes_are_sorted_and_unique() {
    let assets = vec![
        classified("x.foo.org"),
        classified("bar.com:81"),
        classified("*.bar.com"),
        classified("1.1.1.1"),
        classified("rubbish"),
    ];
    assert_eq!(apex_names(&assets), strings(&["bar.com", "foo.org"]));
}

#[test]
fn lines_are_tab_separated() {
    let a = classified("api.example.com:81");
    assert_eq!(classify_line(&a, false), "subdomain\tapi.example.com:81\texample.com\t");
    assert_eq!(classify_line(&a, true), "subdomain\tapi.example.com\texample.com\t");
    let g = classified("foo bar");
    assert_eq!(g.kind, AssetKind::Garbage);
    assert!(classify_line(&g, false).ends_with("\t\tcontains-space"));
    assert_eq!(canonical_for_output(&a, true), "api.example.com");
    assert_eq!(
        scope_line(&a, &strings(&["x", "y"]), false, true),
        "api.example.com:81\tx,y"
    );
    assert_eq!(scope_line(&a, &Vec::new(), true, false), "api.example.com");
    assert_eq!(opt_ms(None), "-");
    assert_eq!(opt_ms(Some(1234567890123456789012)), "1234567890123456789012");
}

#[test]
fn stats_are_listed_line_by_line() {
    let stats = DnsStats {
        input_assets: 3,
        dns_eligible_assets: 2,
        elapsed_ms: 1500,
        probe_queries: 12,
        host_queries: 4,
        signature_parents: SignatureParentStats { total: 3, wildcard: 1, clean: 2, dead: 0 },
        statuses: DnsStatusStats { resolved: 2, error: 1, ..DnsStatusStats::default() },
        wildcard_decisions: WildcardDecisionStats { cname_match: 1, ..WildcardDecisionStats::default() },
        resolver_disagreement: ResolverDisagreementStats::default(),
        short_circuits: DnsShortCircuitStats { dead_zone: 1, flaky_zone: 0 },
    };
    assert_eq!(
        dns_stats_lines(&stats),
        strings(&[
            "# dns stats",
            "input_assets\t3",
            "dns_eligible_assets\t2",
            "elapsed_ms\t1500",
            "probe_queries\t12",
            "host_queries\t4",
            "signature_parents\ttotal=3 wildcard=1 clean=2 dead=0",
            "statuses\tunknown=0 resolved=2 unresolved=0 wildcard_ip=0 wildcard_cname=0 mixed_wildcard=0 shaky=0 timeout=0 error=1",
            "wildcard_decisions\tip_overlap=0 cname_match=1 timeout_inferred=0",
            "resolver_disagreement\tanswer_vs_nxdomain=0 answer_vs_timeout=0 answer_vs_error=0 distinct_ip_sets=0 distinct_cname_sets=0",
            "short_circuits\tdead_zone=1 flaky_zone=0",
        ])
    );
}

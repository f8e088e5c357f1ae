use assetcanon::cdn::parse_table;
use assetcanon::classify::classify_str;
use assetcanon::dns::answers::{answers_of, DnsRecord, HostAnswers, LookupError, LookupOutcome};
use assetcanon::dns::config::DnsConfig;
use assetcanon::dns::decision::Elapsed;
use assetcanon::dns::validator::{ConfigError, DnsReport, DnsValidator, HostStep, ZoneStep};
use assetcanon::ip::{IpAddr, SocketAddr};
use assetcanon::model::{Asset, DnsStatus, WildcardReason};
use assetcanon::psl::SuffixList;

const SUFFIXES: &str = "\
// ===BEGIN ICANN DOMAINS===\n\
com\n\
org\n\
net\n\
nl\n\
uk\n\
co.uk\n\
*.ck\n\
!www.ck\n\
// ===END ICANN DOMAINS===\n";

fn list() -> SuffixList {
    SuffixList::parse(SUFFIXES).unwrap()
}

#[derive(Clone, Copy)]
enum MockValidationMode {
    Clean,
    WildcardIp,
    MixedWildcard,
    WildcardCname,
    Nxdomain,
    Timeout,
}

fn a(v: [u8; 4]) -> DnsRecord {
    DnsRecord::A(u32::from_be_bytes(v))
}

fn mock(mode: MockValidationMode, name: &str) -> HostAnswers {
    let found = |records: Vec<DnsRecord>| answers_of(LookupOutcome::Records(records));
    let missing = || answers_of(LookupOutcome::Failed(LookupError::NoRecords));
    let below = name.ends_with(".example.test");
    match mode {
        MockValidationMode::Clean => {
            if name == "api.example.test" {
                found(vec![a([1, 2, 3, 4])])
            } else {
                missing()
            }
        }
        MockValidationMode::WildcardIp => {
            if below {
                found(vec![a([1, 2, 3, 4])])
            } else {
                missing()
            }
        }
        MockValidationMode::MixedWildcard => {
            if name == "api.example.test" {
                found(vec![a([1, 2, 3, 4]), a([9, 9, 9, 9])])
            } else if below {
                found(vec![a([1, 2, 3, 4])])
            } else {
                missing()
            }
        }
        MockValidationMode::WildcardCname => {
            if below {
                found(vec![DnsRecord::Cname("wildcard.cdn.test.".to_string()), a([1, 2, 3, 4])])
            } else {
                missing()
            }
        }
        MockValidationMode::Nxdomain => missing(),
        MockValidationMode::Timeout => answers_of(LookupOutcome::Failed(LookupError::Timeout)),
    }
}

fn config(resolvers: usize, consistency_checks: usize) -> DnsConfig {
    DnsConfig {
        resolvers: vec![SocketAddr::parse("127.0.0.1:53").unwrap(); resolvers],
        retries: 1,
        wildcard_tests: 2,
        consistency_checks,
        probe_concurrency: 1,
        flaky_min_samples: 0,
        ..DnsConfig::default()
    }
}

fn run(config: DnsConfig, modes: &[MockValidationMode], assets: Vec<Asset>) -> DnsReport {
    let mut v = DnsValidator::new(config, parse_table("cloudflare 104.16.0.0/13\n")).unwrap();
    let count = assets.len();
    for zone in v.begin(&assets) {
        let mut first = None;
        loop {
            let results: Vec<(usize, HostAnswers)> = v
                .plan_round(&zone)
                .iter()
                .map(|p| (p.resolver, mock(modes[p.resolver], &p.name)))
                .collect();
            match v.finish_round(&zone, &results, first.take()) {
                ZoneStep::Settled => break,
                ZoneStep::Again(f) => first = Some(f),
            }
        }
    }
    let mut done = Vec::new();
    for asset in assets {
        done.push(match v.begin_host(asset) {
            HostStep::Done(a) => a,
            HostStep::Ask(p) => {
                let results: Vec<(usize, HostAnswers)> = p
                    .resolvers
                    .iter()
                    .map(|i| (*i, mock(modes[*i], &p.host)))
                    .collect();
                v.finish_host(p, &results)
            }
        });
    }
    v.report(done, count, 7)
}

fn classified(raw: &str) -> Asset {
    classify_str(raw, &list())
}

fn validate_with_mock(mode: MockValidationMode, consistency_checks: usize) -> DnsReport {
    run(config(1, consistency_checks), &[mode], vec![classified("api.example.test")])
}

fn validate_with_two_mocks(first: MockValidationMode, second: MockValidationMode) -> DnsReport {
    run(config(2, 2), &[first, second], vec![classified("api.example.test")])
}

#[test]
fn dns_validation_mock_clean_resolved_records_stats() {
    let report = validate_with_mock(MockValidationMode::Clean, 1);
    let asset = &report.assets[0];

    assert_eq!(asset.dns, DnsStatus::Resolved);
    assert_eq!(asset.ips, vec![IpAddr::parse("1.2.3.4").unwrap()]);
    assert_eq!(report.stats.statuses.resolved, 1);
    assert_eq!(report.stats.signature_parents.clean, 1);
    assert_eq!(report.stats.host_queries, 1);
    assert_eq!(report.stats.probe_queries, 2);
}

#[test]
fn dns_validation_mock_wildcard_ip_records_evidence() {
    let report = validate_with_mock(MockValidationMode::WildcardIp, 1);
    let asset = &report.assets[0];

    assert_eq!(asset.dns, DnsStatus::WildcardIp);
    assert_eq!(asset.wildcard_reason, Some(WildcardReason::IpOverlap));
    assert_eq!(asset.wildcard_root.as_deref(), Some("*.example.test"));
    assert_eq!(asset.wildcard_ip_overlap_count, 1);
    assert_eq!(asset.wildcard_host_ip_count, 1);
    assert_eq!(asset.wildcard_signature_ip_count, 1);
    assert_eq!(report.stats.wildcard_decisions.ip_overlap, 1);
    assert_eq!(report.stats.statuses.wildcard_ip, 1);
    assert_eq!(report.wildcard_roots, vec!["*.example.test".to_string()]);
}

#[test]
fn dns_validation_mock_mixed_wildcard_records_partial_overlap() {
    let report = validate_with_mock(MockValidationMode::MixedWildcard, 1);
    let asset = &report.assets[0];

    assert_eq!(asset.dns, DnsStatus::MixedWildcard);
    assert_eq!(asset.wildcard_reason, Some(WildcardReason::IpOverlap));
    assert_eq!(asset.wildcard_ip_overlap_count, 1);
    assert_eq!(asset.wildcard_host_ip_count, 2);
    assert_eq!(report.stats.statuses.mixed_wildcard, 1);
}

#[test]
fn dns_validation_mock_wildcard_cname_records_evidence() {
    let report = validate_with_mock(MockValidationMode::WildcardCname, 1);
    let asset = &report.assets[0];

    assert_eq!(asset.dns, DnsStatus::WildcardCname);
    assert_eq!(asset.wildcard_reason, Some(WildcardReason::CnameMatch));
    assert_eq!(asset.wildcard_cname_overlap_count, 1);
    assert_eq!(asset.wildcard_signature_cname_count, 1);
    assert!(asset.cnames.contains(&"wildcard.cdn.test".to_string()));
    assert_eq!(report.stats.wildcard_decisions.cname_match, 1);
    assert_eq!(report.stats.statuses.wildcard_cname, 1);
}

#[test]
fn dns_validation_mock_dead_zone_short_circuits_host_query() {
    let report = validate_with_mock(MockValidationMode::Timeout, 1);
    let asset = &report.assets[0];

    assert_eq!(asset.dns, DnsStatus::Timeout);
    assert_eq!(asset.dead_zone.as_deref(), Some("example.test"));
    assert_eq!(report.stats.signature_parents.dead, 1);
    assert_eq!(report.stats.short_circuits.dead_zone, 1);
    assert_eq!(report.stats.host_queries, 0);
    assert_eq!(report.stats.probe_queries, 4);
    assert_eq!(report.dead_zones, vec!["example.test".to_string()]);
}

#[test]
fn dns_validation_mock_resolver_disagreement_is_shaky_and_counted() {
    let report = validate_with_two_mocks(MockValidationMode::Clean, MockValidationMode::Nxdomain);
    let asset = &report.assets[0];

    assert_eq!(asset.dns, DnsStatus::Shaky);
    assert!(asset.resolver_disagreement);
    assert_eq!(report.stats.resolver_disagreement.answer_vs_nxdomain, 1);
    assert_eq!(report.stats.statuses.shaky, 1);
    assert_eq!(report.stats.host_queries, 2);
}

#[test]
fn a_run_needs_a_resolver() {
    let r = DnsValidator::new(config(0, 1), parse_table(""));
    assert!(matches!(r, Err(ConfigError::NoResolvers)));
}

#[test]
fn literals_and_non_hosts_are_not_asked_for() {
    let report = run(
        config(1, 1),
        &[MockValidationMode::Timeout],
        vec![classified("104.16.1.1:8080"), classified("*.example.com"), classified("rubbish")],
    );
    assert_eq!(report.assets[0].dns, DnsStatus::Resolved);
    assert_eq!(report.assets[0].cdn.as_deref(), Some("cloudflare"));
    assert_eq!(report.assets[0].ips, vec![IpAddr::parse("104.16.1.1").unwrap()]);
    let c = report.assets[0].confidence.unwrap();
    assert_eq!((c.numerator(), c.denominator()), (100, 100));
    assert_eq!(report.assets[1].dns, DnsStatus::Unknown);
    assert_eq!(report.assets[2].dns, DnsStatus::Unknown);
    assert_eq!(report.stats.host_queries, 0);
    assert_eq!(report.stats.dns_eligible_assets, 1);
    assert_eq!(report.stats.elapsed_ms, 7);
    assert_eq!(report.stats.input_assets, 3);
}

#[test]
fn flaky_zones_are_skipped_once_flagged() {
    let config = DnsConfig { flaky_min_samples: 2, wildcard_filter: false, ..config(1, 1) };
    let report = run(
        config,
        &[MockValidationMode::Timeout],
        vec![
            classified("a.example.test"),
            classified("b.example.test"),
            classified("c.example.test"),
        ],
    );
    assert_eq!(report.assets[1].flaky_zone, None);
    assert_eq!(report.assets[2].flaky_zone.as_deref(), Some("example.test"));
    assert_eq!(report.flaky_zones, vec!["example.test".to_string()]);
    assert_eq!(report.stats.host_queries, 2);
    assert_eq!(report.stats.short_circuits.flaky_zone, 1);
}

#[test]
fn hijacking_resolvers_are_taken_out_of_use() {
    let mut v = DnsValidator::new(config(3, 2), parse_table("")).unwrap();
    let answer = HostAnswers { any_answer: true, ..Default::default() };
    v.record_hijack_probe(1, &Err(Elapsed));
    assert_eq!(v.healthy_resolver_indices(), vec![0, 1, 2]);
    v.record_hijack_probe(1, &Ok(answer.clone()));
    assert_eq!(v.healthy_resolver_indices(), vec![0, 2]);
    v.flag_resolver_unhealthy(0);
    v.flag_resolver_unhealthy(2);
    v.flag_resolver_unhealthy(9);
    assert_eq!(v.healthy_resolver_indices(), vec![0, 1, 2]);
}

#[test]
fn hosts_in_dead_zones_are_asked_for_when_nothing_is_skipped() {
    let config = DnsConfig { skip_dead_zones: false, ..config(1, 1) };
    let report = run(config, &[MockValidationMode::Timeout], vec![classified("api.example.test")]);
    let asset = &report.assets[0];
    assert_eq!(asset.dns, DnsStatus::Timeout);
    assert_eq!((asset.dead_zone.as_deref(), asset.flaky_zone.as_deref()), (None, None));
    assert_eq!(report.stats.host_queries, 1);
    assert_eq!(report.stats.signature_parents.dead, 1);
    let s = report.stats.short_circuits;
    assert_eq!((s.dead_zone, s.flaky_zone), (0, 0));
}

#[test]
fn non_hosts_keep_their_status() {
    let mut wildcard = classified("*.example.com");
    wildcard.dns = DnsStatus::Resolved;
    let mut garbage = classified("rubbish");
    garbage.dns = DnsStatus::Shaky;
    let report = run(config(1, 1), &[MockValidationMode::Timeout], vec![wildcard, garbage]);
    assert_eq!(report.assets[0].dns, DnsStatus::Resolved);
    assert_eq!(report.assets[1].dns, DnsStatus::Shaky);
}

#[test]
fn a_zone_with_few_decisive_probes_is_probed_again() {
    let config = DnsConfig { wildcard_tests: 3, ..config(3, 1) };
    let report = run(
        config,
        &[MockValidationMode::Nxdomain, MockValidationMode::Timeout, MockValidationMode::Timeout],
        vec![classified("api.example.test")],
    );
    assert_eq!(report.stats.probe_queries, 6);
    assert_eq!(report.stats.signature_parents.clean, 1);
}

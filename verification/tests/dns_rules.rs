use assetcanon::cdn::{parse_table, CdnTable};
use assetcanon::dns::answers::{
    answers_of, merge_answers, DnsRecord, HostAnswers, LookupError, LookupOutcome,
};
use assetcanon::dns::config::{DnsConfig, Ratio};
use assetcanon::dns::decision::{
    apply_cdn_downgrade, classify_against_sig, compute_confidence, detect_cdn, final_decision,
    final_status, is_hijacked_outcome, Elapsed, WildcardSignature,
};
use assetcanon::dns::probe::{
    judge_one_round, judge_two_rounds, label_char, plan_probes, probe_name, random_check_label,
    random_label, summarize_round,
};
use assetcanon::dns::stats::{
    add_status_stat, add_wildcard_reason_stat, count_assets, DnsStatusStats, WildcardDecisionStats,
};
use assetcanon::dns::tracking::{
    apply_flaky_sample, apply_resolver_health_sample, FlakyStats, FlakyTable,
    ResolverHealthCounters,
};
use assetcanon::dns::zones::{
    collect_ancestors, host_for_dns, parent_of, sig_to_state, unite_signatures, ParentState,
    ZoneTable,
};
use assetcanon::ip::IpAddr;
use assetcanon::model::{Asset, AssetKind, Confidence, DnsStatus, WildcardReason};

const RANGES: &str = "\
# provider block\n\
cloudflare 173.245.48.0/20\n\
cloudflare 103.21.244.0/22\n\
cloudflare 103.22.200.0/22\n\
cloudflare 103.31.4.0/22\n\
cloudflare 141.101.64.0/18\n\
cloudflare 108.162.192.0/18\n\
cloudflare 190.93.240.0/20\n\
cloudflare 188.114.96.0/20\n\
cloudflare 197.234.240.0/22\n\
cloudflare 198.41.128.0/17\n\
cloudflare 162.158.0.0/15\n\
cloudflare 104.16.0.0/13\n\
cloudflare 104.24.0.0/14\n\
cloudflare 172.64.0.0/13\n\
cloudflare 131.0.72.0/22\n\
cloudflare 2400:cb00::/32\n\
cloudflare 2606:4700::/32\n\
cloudflare 2803:f800::/32\n\
cloudflare 2405:b500::/32\n\
cloudflare 2405:8100::/32\n\
cloudflare 2a06:98c0::/29\n\
cloudflare 2c0f:f248::/32\n\
fastly 23.235.32.0/20\n\
fastly 43.249.72.0/22\n\
fastly 103.244.50.0/24\n\
fastly 103.245.222.0/23\n\
fastly 103.245.224.0/24\n\
fastly 104.156.80.0/20\n\
fastly 140.248.64.0/18\n\
fastly 140.248.128.0/17\n\
fastly 146.75.0.0/17\n\
fastly 151.101.0.0/16\n\
fastly 157.52.64.0/18\n\
fastly 167.82.0.0/17\n\
fastly 167.82.128.0/20\n\
fastly 167.82.160.0/20\n\
fastly 167.82.224.0/20\n\
fastly 172.111.64.0/18\n\
fastly 185.31.16.0/22\n\
fastly 199.27.72.0/21\n\
fastly 199.232.0.0/16\n\
fastly 2a04:4e40::/32\n\
fastly 2a04:4e42::/32\n\
github_pages 185.199.108.0/22\n\
";

fn table() -> CdnTable {
    parse_table(RANGES)
}

fn ip(s: &str) -> IpAddr {
    IpAddr::parse(s).unwrap()
}

fn signature(root: &str, ips: &[&str], cnames: &[&str]) -> WildcardSignature {
    WildcardSignature {
        root: root.to_string(),
        ips: ips.iter().map(|s| ip(s)).collect(),
        cnames: cnames.iter().map(|s| s.to_string()).collect(),
    }
}

fn answers(ips: &[&str], cnames: &[&str]) -> HostAnswers {
    HostAnswers {
        ips: ips.iter().map(|s| ip(s)).collect(),
        cnames: cnames.iter().map(|s| s.to_string()).collect(),
        any_answer: true,
        ..Default::default()
    }
}

fn value(c: Confidence) -> f64 {
    c.numerator() as f64 / c.denominator() as f64
}

fn host(canonical: &str, kind: AssetKind) -> Asset {
    Asset::fresh(
        canonical.to_string(),
        canonical.to_string(),
        kind,
        None,
        None,
        None,
        None,
    )
}

const FOUR_FIFTHS: Ratio = Ratio { num: 8, den: 10 };
const HALF: Ratio = Ratio { num: 5, den: 10 };

#[test]
fn parent_basic() {
    assert_eq!(parent_of("a.b.example.com").as_deref(), Some("b.example.com"));
    assert_eq!(parent_of("b.example.com").as_deref(), Some("example.com"));
    assert_eq!(parent_of("example.com"), None);
    assert_eq!(parent_of("com"), None);
}

#[test]
fn random_label_shape() {
    let s = random_label(16);
    assert_eq!(s.len(), 16);
    assert!(s.chars().all(|c| c.is_ascii_alphanumeric()));
}

#[test]
fn random_labels_vary() {
    let labels: Vec<String> = (0..20).map(|_| random_label(16)).collect();
    assert!(labels.iter().any(|l| *l != labels[0]));
    let all: String = (0..36).map(label_char).collect();
    assert_eq!(all, "abcdefghijklmnopqrstuvwxyz0123456789");
    let name = probe_name("example.com");
    assert_eq!(name.len(), 28);
    assert!(name.ends_with(".example.com"));
    let label = random_check_label(3, "nx");
    assert!(label.starts_with("ac-nx-3-"));
    assert_eq!(label.len(), 18);
}

#[test]
fn cname_match_is_decisive() {
    let sig = signature("example.com", &[], &["cdn.example.net"]);
    let answers = answers(&["1.2.3.4"], &["cdn.example.net"]);
    assert_eq!(classify_against_sig(&answers, &sig), DnsStatus::WildcardCname);
}

#[test]
fn explain_cname_match_includes_root_and_reason() {
    let sig = signature("example.com", &[], &["cdn.example.net"]);
    let answers = answers(&["1.2.3.4"], &["cdn.example.net"]);
    let decision = final_decision(&answers, Some(&sig), true);
    assert_eq!(decision.status, DnsStatus::WildcardCname);
    assert_eq!(decision.wildcard_root.as_deref(), Some("*.example.com"));
    assert_eq!(decision.wildcard_reason, Some(WildcardReason::CnameMatch));
    assert_eq!(decision.wildcard_cname_overlap_count, 1);
    assert_eq!(decision.wildcard_signature_cname_count, 1);
}

#[test]
fn cname_chain_match_hits_on_any_hop() {
    let sig = signature("example.com", &[], &["cdn.example.net"]);
    let answers = answers(&["1.2.3.4"], &["legacy.example.com", "cdn.example.net"]);
    assert_eq!(classify_against_sig(&answers, &sig), DnsStatus::WildcardCname);
}

#[test]
fn full_ip_overlap_is_wildcard_ip() {
    let sig = signature("example.com", &["1.2.3.4", "1.2.3.5"], &[]);
    let answers = answers(&["1.2.3.4"], &[]);
    assert_eq!(classify_against_sig(&answers, &sig), DnsStatus::WildcardIp);
}

#[test]
fn explain_ip_overlap_includes_root_and_reason() {
    let sig = signature("example.com", &["1.2.3.4"], &[]);
    let answers = answers(&["1.2.3.4"], &[]);
    let decision = final_decision(&answers, Some(&sig), true);
    assert_eq!(decision.status, DnsStatus::WildcardIp);
    assert_eq!(decision.wildcard_root.as_deref(), Some("*.example.com"));
    assert_eq!(decision.wildcard_reason, Some(WildcardReason::IpOverlap));
    assert_eq!(decision.wildcard_ip_overlap_count, 1);
    assert_eq!(decision.wildcard_host_ip_count, 1);
    assert_eq!(decision.wildcard_signature_ip_count, 1);
}

#[test]
fn cdn_downgrade_ip_overlap_to_review() {
    let sig = signature("example.com", &["104.16.1.1", "172.64.1.1"], &[]);
    let answers = answers(&["104.16.1.1"], &[]);
    let mut decision = final_decision(&answers, Some(&sig), true);
    assert_eq!(decision.status, DnsStatus::WildcardIp);
    let cdn = detect_cdn(&table(), &answers);
    apply_cdn_downgrade(&mut decision, cdn);
    assert_eq!(cdn, Some("cloudflare"));
    assert_eq!(decision.status, DnsStatus::MixedWildcard);
    assert_eq!(decision.wildcard_root.as_deref(), Some("*.example.com"));
    assert_eq!(decision.wildcard_reason, Some(WildcardReason::IpOverlap));
    assert_eq!(decision.wildcard_ip_overlap_count, 1);
}

#[test]
fn cdn_does_not_downgrade_cname_match() {
    let sig = signature("example.com", &[], &["cdn.example.net"]);
    let answers = answers(&["104.16.1.1"], &["cdn.example.net"]);
    let mut decision = final_decision(&answers, Some(&sig), true);
    assert_eq!(decision.status, DnsStatus::WildcardCname);
    let cdn = detect_cdn(&table(), &answers);
    apply_cdn_downgrade(&mut decision, cdn);
    assert_eq!(cdn, Some("cloudflare"));
    assert_eq!(decision.status, DnsStatus::WildcardCname);
    assert!(decision.wildcard_root.is_some());
    assert_eq!(decision.wildcard_reason, Some(WildcardReason::CnameMatch));
}

#[test]
fn cdn_tags_resolved_host_without_downgrade() {
    let answers = answers(&["104.16.1.1"], &[]);
    let mut decision = final_decision(&answers, None, true);
    assert_eq!(decision.status, DnsStatus::Resolved);
    let cdn = detect_cdn(&table(), &answers);
    apply_cdn_downgrade(&mut decision, cdn);
    assert_eq!(cdn, Some("cloudflare"));
    assert_eq!(decision.status, DnsStatus::Resolved);
}

#[test]
fn cdn_mixed_cdn_and_non_cdn_does_not_tag() {
    let sig = signature("example.com", &["104.16.1.1", "8.8.8.8"], &[]);
    let answers = answers(&["104.16.1.1", "8.8.8.8"], &[]);
    let mut decision = final_decision(&answers, Some(&sig), true);
    assert_eq!(decision.status, DnsStatus::WildcardIp);
    let cdn = detect_cdn(&table(), &answers);
    apply_cdn_downgrade(&mut decision, cdn);
    assert_eq!(cdn, None);
    assert_eq!(decision.status, DnsStatus::WildcardIp);
}

#[test]
fn cdn_cname_based_detection_tags_akamai() {
    let answers = answers(&["198.51.100.5"], &["e1234.dscb.akamaiedge.net"]);
    let mut decision = final_decision(&answers, None, true);
    assert_eq!(decision.status, DnsStatus::Resolved);
    let cdn = detect_cdn(&table(), &answers);
    apply_cdn_downgrade(&mut decision, cdn);
    assert_eq!(cdn, Some("akamai"));
}

#[test]
fn cdn_cname_based_downgrade_for_cloudfront() {
    let sig = signature("example.com", &["13.224.78.55"], &[]);
    let answers = answers(&["13.224.78.55"], &["d123456abcdef.cloudfront.net"]);
    let mut decision = final_decision(&answers, Some(&sig), true);
    assert_eq!(decision.status, DnsStatus::WildcardIp);
    let cdn = detect_cdn(&table(), &answers);
    apply_cdn_downgrade(&mut decision, cdn);
    assert_eq!(cdn, Some("cloudfront"));
    assert_eq!(decision.status, DnsStatus::MixedWildcard);
    assert_eq!(decision.wildcard_root.as_deref(), Some("*.example.com"));
}

#[test]
fn cdn_ip_match_takes_precedence_over_cname() {
    let answers = answers(&["104.16.1.1"], &["e1234.akamaiedge.net"]);
    assert_eq!(detect_cdn(&table(), &answers), Some("cloudflare"));
}

#[test]
fn confidence_resolved_multi_resolver_plus_cdn() {
    let mut answers = answers(&["104.16.1.1"], &[]);
    answers.answer_count = 2;
    let decision = final_decision(&answers, None, true);
    let c = value(compute_confidence(&decision, &answers, true));
    assert!((c - 1.0).abs() < 1e-6, "expected ~1.0, got {c}");
}

#[test]
fn confidence_resolved_single_resolver_no_cdn() {
    let mut answers = answers(&["1.2.3.4"], &[]);
    answers.answer_count = 1;
    let decision = final_decision(&answers, None, true);
    let c = value(compute_confidence(&decision, &answers, false));
    assert!((c - 0.9).abs() < 1e-6, "expected 0.9, got {c}");
}

#[test]
fn confidence_wildcard_cname_is_high() {
    let sig = signature("example.com", &[], &["cdn.example.net"]);
    let answers = answers(&["1.2.3.4"], &["cdn.example.net"]);
    let decision = final_decision(&answers, Some(&sig), true);
    let c = value(compute_confidence(&decision, &answers, false));
    assert!((c - 0.95).abs() < 1e-6);
}

#[test]
fn confidence_wildcard_ip_scales_with_coverage() {
    let sig = signature("example.com", &["1.2.3.4"], &[]);
    let answers = answers(&["1.2.3.4"], &[]);
    let mut decision = final_decision(&answers, Some(&sig), true);
    let c = value(compute_confidence(&decision, &answers, false));
    assert!((c - 1.0).abs() < 1e-6, "expected ~1.0, got {c}");
    decision.wildcard_host_ip_count = 4;
    let c = value(compute_confidence(&decision, &answers, false));
    assert!((c - 0.7).abs() < 1e-6, "expected ~0.7, got {c}");
}

#[test]
fn confidence_timeout_inferred_is_moderate() {
    let sig = signature("example.com", &["1.2.3.4"], &[]);
    let answers = HostAnswers { any_timeout: true, ..Default::default() };
    let decision = final_decision(&answers, Some(&sig), true);
    assert_eq!(decision.status, DnsStatus::WildcardIp);
    assert_eq!(decision.wildcard_reason, Some(WildcardReason::TimeoutInferred));
    let c = value(compute_confidence(&decision, &answers, false));
    assert!((c - 0.6).abs() < 1e-6, "expected 0.6 for timeout-inferred, got {c}");
}

#[test]
fn confidence_shaky_and_timeout_are_low() {
    let mut answers = answers(&["1.2.3.4"], &[]);
    answers.disagreement = true;
    answers.answer_count = 1;
    answers.nxdomain_count = 1;
    let mut decision = final_decision(&answers, None, true);
    decision.status = DnsStatus::Shaky;
    assert!((value(compute_confidence(&decision, &answers, false)) - 0.3).abs() < 1e-6);
    decision.status = DnsStatus::Timeout;
    assert!((value(compute_confidence(&decision, &answers, false)) - 0.1).abs() < 1e-6);
    decision.status = DnsStatus::Error;
    assert!((value(compute_confidence(&decision, &answers, false)) - 0.0).abs() < 1e-6);
    decision.status = DnsStatus::Unresolved;
    assert!((value(compute_confidence(&decision, &answers, false)) - 0.5).abs() < 1e-6);
    decision.status = DnsStatus::MixedWildcard;
    assert!((value(compute_confidence(&decision, &answers, false)) - 0.5).abs() < 1e-6);
}

#[test]
fn partial_overlap_is_mixed() {
    let sig = signature("example.com", &["1.2.3.4"], &[]);
    let answers = answers(&["1.2.3.4", "9.9.9.9"], &[]);
    assert_eq!(classify_against_sig(&answers, &sig), DnsStatus::MixedWildcard);
}

#[test]
fn disjoint_ip_is_resolved() {
    let sig = signature("example.com", &["1.2.3.4"], &[]);
    let answers = answers(&["8.8.8.8"], &[]);
    assert_eq!(classify_against_sig(&answers, &sig), DnsStatus::Resolved);
}

#[test]
fn merge_marks_shaky_on_disagreement() {
    let a = answers(&["1.2.3.4"], &[]);
    let b = HostAnswers { all_nxdomain: true, ..Default::default() };
    let merged = merge_answers(&vec![a, b]);
    assert!(merged.disagreement);
    assert!(merged.any_answer);
    assert_eq!(merged.answer_count, 1);
    assert_eq!(merged.nxdomain_count, 1);
}

#[test]
fn merge_tracks_low_cardinality_resolver_disagreement_stats() {
    let answer_a = answers(&["1.2.3.4"], &["cdn-a.example.net"]);
    let answer_b = answers(&["5.6.7.8"], &["cdn-b.example.net"]);
    let timeout = HostAnswers { any_timeout: true, ..Default::default() };
    let error = HostAnswers { any_error: true, ..Default::default() };
    let merged = merge_answers(&vec![answer_a, answer_b, timeout, error]);
    assert_eq!(merged.answer_count, 2);
    assert_eq!(merged.timeout_count, 1);
    assert_eq!(merged.error_count, 1);
    assert_eq!(merged.distinct_ip_sets, 2);
    assert_eq!(merged.distinct_cname_sets, 2);
}

#[test]
fn merge_compares_sets_whatever_their_order() {
    let a = answers(&["1.2.3.4", "5.6.7.8"], &["x.net", "y.net"]);
    let b = answers(&["5.6.7.8", "1.2.3.4"], &["y.net", "x.net"]);
    let merged = merge_answers(&vec![a, b]);
    assert_eq!(merged.distinct_ip_sets, 1);
    assert_eq!(merged.distinct_cname_sets, 1);
    assert_eq!(merged.ips.len(), 2);
    assert_eq!(merged.cnames, vec!["x.net".to_string(), "y.net".to_string()]);
    let none = merge_answers(&Vec::new());
    assert!(!none.any_answer && !none.all_nxdomain && !none.disagreement);
}

#[test]
fn merge_preserves_cname_chain_order() {
    let chain = vec!["legacy.example.com".to_string(), "cdn.example.net".to_string()];
    let a = answers(&["1.2.3.4"], &["legacy.example.com", "cdn.example.net"]);
    let b = answers(&["1.2.3.4"], &["legacy.example.com", "cdn.example.net"]);
    let merged = merge_answers(&vec![a, b]);
    assert_eq!(merged.cnames, chain);
}

#[test]
fn merge_unions_divergent_chains_first_seen_wins() {
    let a = answers(&[], &["legacy.example.com", "cdn.example.net"]);
    let b = answers(&[], &["legacy.example.com"]);
    let merged = merge_answers(&vec![a, b]);
    assert_eq!(
        merged.cnames,
        vec!["legacy.example.com".to_string(), "cdn.example.net".to_string()]
    );
}

#[test]
fn merge_all_nxdomain_is_unresolved() {
    let a = HostAnswers { all_nxdomain: true, ..Default::default() };
    let b = HostAnswers { all_nxdomain: true, ..Default::default() };
    let merged = merge_answers(&vec![a, b]);
    assert!(!merged.any_answer);
    assert!(merged.all_nxdomain);
    assert!(!merged.disagreement);
}

#[test]
fn wildcard_wins_over_shaky() {
    let sig = signature("cheaptickets.nl", &["104.18.16.5", "104.18.17.5"], &[]);
    let mut answers = answers(&["104.18.16.5", "104.18.17.5"], &[]);
    answers.disagreement = true;
    assert_eq!(final_status(&answers, Some(&sig), true), DnsStatus::WildcardIp);
}

#[test]
fn wildcard_cname_wins_over_shaky() {
    let sig = signature("example.com", &[], &["cdn.example.net"]);
    let mut answers = answers(&["1.2.3.4"], &["cdn.example.net"]);
    answers.disagreement = true;
    assert_eq!(final_status(&answers, Some(&sig), true), DnsStatus::WildcardCname);
}

#[test]
fn shaky_survives_when_no_wildcard_match() {
    let mut answers = answers(&["1.2.3.4"], &[]);
    answers.disagreement = true;
    assert_eq!(final_status(&answers, None, true), DnsStatus::Shaky);
}

#[test]
fn clean_resolve_is_resolved() {
    let answers = answers(&["1.2.3.4"], &[]);
    assert_eq!(final_status(&answers, None, true), DnsStatus::Resolved);
}

#[test]
fn timeout_when_no_answers_and_some_timed_out() {
    let answers = HostAnswers { any_timeout: true, ..Default::default() };
    assert_eq!(final_status(&answers, None, true), DnsStatus::Timeout);
}

#[test]
fn unresolved_beats_timeout_when_all_nxdomain() {
    let answers = HostAnswers { all_nxdomain: true, any_timeout: true, ..Default::default() };
    assert_eq!(final_status(&answers, None, true), DnsStatus::Unresolved);
}

#[test]
fn errors_and_silence_have_their_status() {
    let answers = HostAnswers { any_error: true, ..Default::default() };
    assert_eq!(final_status(&answers, None, true), DnsStatus::Error);
    assert_eq!(final_status(&HostAnswers::default(), None, true), DnsStatus::Unresolved);
}

#[test]
fn timeout_under_wildcard_parent_is_inferred_wildcard_ip() {
    let sig = signature("cheaptickets.nl", &["104.18.16.5"], &[]);
    let answers = HostAnswers { any_timeout: true, ..Default::default() };
    assert_eq!(final_status(&answers, Some(&sig), true), DnsStatus::WildcardIp);
}

#[test]
fn explain_timeout_inference_includes_root_and_reason() {
    let sig = signature("cheaptickets.nl", &["104.18.16.5"], &[]);
    let answers = HostAnswers { any_timeout: true, ..Default::default() };
    let decision = final_decision(&answers, Some(&sig), true);
    assert_eq!(decision.status, DnsStatus::WildcardIp);
    assert_eq!(decision.wildcard_root.as_deref(), Some("*.cheaptickets.nl"));
    assert_eq!(decision.wildcard_reason, Some(WildcardReason::TimeoutInferred));
    assert_eq!(decision.wildcard_ip_overlap_count, 0);
    assert_eq!(decision.wildcard_host_ip_count, 0);
    assert_eq!(decision.wildcard_signature_ip_count, 1);
}

#[test]
fn inference_disabled_keeps_timeout() {
    let sig = signature("cheaptickets.nl", &["104.18.16.5"], &[]);
    let answers = HostAnswers { any_timeout: true, ..Default::default() };
    assert_eq!(final_status(&answers, Some(&sig), false), DnsStatus::Timeout);
}

#[test]
fn inference_does_not_rescue_nxdomain() {
    let sig = signature("cheaptickets.nl", &["104.18.16.5"], &[]);
    let answers = HostAnswers { all_nxdomain: true, ..Default::default() };
    assert_eq!(final_status(&answers, Some(&sig), true), DnsStatus::Unresolved);
}

#[test]
fn stats_helpers_count_statuses_and_wildcard_reasons() {
    let mut statuses = DnsStatusStats::default();
    add_status_stat(&mut statuses, DnsStatus::Resolved);
    add_status_stat(&mut statuses, DnsStatus::Resolved);
    add_status_stat(&mut statuses, DnsStatus::WildcardCname);
    add_status_stat(&mut statuses, DnsStatus::Timeout);

    assert_eq!(statuses.resolved, 2);
    assert_eq!(statuses.wildcard_cname, 1);
    assert_eq!(statuses.timeout, 1);
    assert_eq!(statuses.unresolved, 0);

    let mut reasons = WildcardDecisionStats::default();
    add_wildcard_reason_stat(&mut reasons, WildcardReason::IpOverlap);
    add_wildcard_reason_stat(&mut reasons, WildcardReason::CnameMatch);
    add_wildcard_reason_stat(&mut reasons, WildcardReason::CnameMatch);
    add_wildcard_reason_stat(&mut reasons, WildcardReason::TimeoutInferred);

    assert_eq!(reasons.ip_overlap, 1);
    assert_eq!(reasons.cname_match, 2);
    assert_eq!(reasons.timeout_inferred, 1);
}

#[test]
fn assets_are_counted_by_status() {
    let mut a = host("a.example.com", AssetKind::Subdomain);
    a.dns = DnsStatus::Timeout;
    a.dead_zone = Some("example.com".to_string());
    let mut b = host("*.example.com", AssetKind::Wildcard);
    b.dns = DnsStatus::WildcardIp;
    b.wildcard_reason = Some(WildcardReason::IpOverlap);
    b.flaky_zone = Some("x".to_string());
    let c = count_assets(&vec![a, b]);
    assert_eq!(c.eligible, 1);
    assert_eq!(c.statuses.timeout, 1);
    assert_eq!(c.statuses.wildcard_ip, 1);
    assert_eq!(c.wildcard_decisions.ip_overlap, 1);
    assert_eq!(c.short_circuits.dead_zone, 1);
    assert_eq!(c.short_circuits.flaky_zone, 1);
}

#[test]
fn flaky_flips_after_threshold_and_min_samples() {
    let mut s = FlakyStats::default();
    for _ in 0..9 {
        apply_flaky_sample(&mut s, FOUR_FIFTHS, 10, false, true);
    }
    assert!(!s.flagged, "below min samples should not flag");
    assert_eq!(s.timeouts, 9);
    apply_flaky_sample(&mut s, FOUR_FIFTHS, 10, false, true);
    assert!(s.flagged);
}

#[test]
fn flaky_does_not_flip_when_mostly_successful() {
    let mut s = FlakyStats::default();
    for _ in 0..9 {
        apply_flaky_sample(&mut s, FOUR_FIFTHS, 10, true, false);
    }
    apply_flaky_sample(&mut s, FOUR_FIFTHS, 10, false, true);
    assert!(!s.flagged);
    assert_eq!(s.timeouts, 1);
    assert_eq!(s.total, 10);
}

#[test]
fn flaky_ignores_nxdomain_only_outcomes() {
    let mut s = FlakyStats::default();
    for _ in 0..20 {
        apply_flaky_sample(&mut s, FOUR_FIFTHS, 10, false, false);
    }
    assert!(!s.flagged);
    assert_eq!(s.timeouts, 0);
}

#[test]
fn flaky_min_samples_zero_never_flags() {
    let mut s = FlakyStats::default();
    for _ in 0..50 {
        apply_flaky_sample(&mut s, FOUR_FIFTHS, 0, false, true);
    }
    assert!(!s.flagged);
}

#[test]
fn flaky_flips_at_the_exact_ratio() {
    let mut s = FlakyStats::default();
    for i in 0..10 {
        apply_flaky_sample(&mut s, FOUR_FIFTHS, 10, i < 2, i >= 2);
    }
    assert!(s.flagged);
    let mut t = FlakyTable::new();
    let lost = HostAnswers { any_timeout: true, ..Default::default() };
    t.record("b.com", &lost, FOUR_FIFTHS, 1);
    t.record("a.com", &lost, FOUR_FIFTHS, 1);
    t.record("c.com", &answers(&["1.1.1.1"], &[]), FOUR_FIFTHS, 1);
    assert!(t.is_flagged("a.com"));
    assert!(!t.is_flagged("c.com"));
    assert_eq!(t.flagged_zones(), vec!["a.com".to_string(), "b.com".to_string()]);
}

#[test]
fn resolver_health_flags_after_threshold() {
    let mut h = ResolverHealthCounters::default();
    for _ in 0..20 {
        apply_resolver_health_sample(&mut h, HALF, 20, false, true, false);
    }
    assert!(h.flagged);
}

#[test]
fn resolver_health_below_threshold_stays_healthy() {
    let mut h = ResolverHealthCounters::default();
    for i in 0..40 {
        let timeout = i % 4 == 0;
        apply_resolver_health_sample(&mut h, HALF, 20, !timeout, timeout, false);
    }
    assert!(!h.flagged);
}

#[test]
fn resolver_health_nxdomain_does_not_count_as_timeout() {
    let mut h = ResolverHealthCounters::default();
    for _ in 0..50 {
        apply_resolver_health_sample(&mut h, HALF, 20, false, true, true);
    }
    assert!(!h.flagged);
    assert_eq!(h.timeouts, 0);
}

#[test]
fn resolver_health_requires_min_samples() {
    let mut h = ResolverHealthCounters::default();
    for _ in 0..19 {
        apply_resolver_health_sample(&mut h, HALF, 20, false, true, false);
    }
    assert!(!h.flagged);
    apply_resolver_health_sample(&mut h, HALF, 20, false, true, false);
    assert!(h.flagged);
}

#[test]
fn resolver_health_threshold_at_one_disables_gate() {
    let mut h = ResolverHealthCounters::default();
    for _ in 0..100 {
        apply_resolver_health_sample(&mut h, Ratio { num: 1, den: 1 }, 1, false, true, false);
    }
    assert!(!h.flagged);
}

#[test]
fn resolver_health_half_is_not_more_than_half() {
    let mut h = ResolverHealthCounters::default();
    for i in 0..20 {
        apply_resolver_health_sample(&mut h, HALF, 20, i % 2 == 0, i % 2 == 1, false);
    }
    assert_eq!(h.timeouts, 10);
    assert!(!h.flagged);
}

#[test]
fn hijack_outcome_answer_means_hijacked() {
    assert!(is_hijacked_outcome(&Ok(answers(&["1.2.3.4"], &[]))));
}

#[test]
fn hijack_outcome_nxdomain_is_clean() {
    let ans = HostAnswers { all_nxdomain: true, ..Default::default() };
    assert!(!is_hijacked_outcome(&Ok(ans)));
}

#[test]
fn hijack_outcome_timeout_is_ambiguous_not_hijacked() {
    let outcome: Result<HostAnswers, Elapsed> = Err(Elapsed);
    assert!(outcome.is_err());
    assert!(!is_hijacked_outcome(&outcome));
}

#[test]
fn resolver_health_sticky_after_flag() {
    let mut h = ResolverHealthCounters::default();
    for _ in 0..20 {
        apply_resolver_health_sample(&mut h, HALF, 20, false, true, false);
    }
    assert!(h.flagged);
    for _ in 0..1000 {
        apply_resolver_health_sample(&mut h, HALF, 20, true, false, false);
    }
    assert!(h.flagged);
}

#[test]
fn sig_to_state_maps_correctly() {
    assert!(matches!(sig_to_state(None), ParentState::Clean));
    let sig = signature("example.com", &["1.2.3.4"], &[]);
    assert!(matches!(sig_to_state(Some(sig)), ParentState::Wildcard(_)));
}

#[test]
fn lookups_become_answers() {
    let a = answers_of(LookupOutcome::Records(vec![
        DnsRecord::Cname("Edge.Example.NET.".to_string()),
        DnsRecord::A(16909060),
        DnsRecord::Other,
        DnsRecord::A(16909060),
        DnsRecord::Aaaa(1),
        DnsRecord::Cname("edge.example.net".to_string()),
    ]));
    assert!(a.any_answer);
    assert_eq!(a.ips, vec![ip("1.2.3.4"), ip("::1")]);
    assert_eq!(a.cnames, vec!["edge.example.net".to_string()]);
    assert!(!answers_of(LookupOutcome::Records(vec![DnsRecord::Other])).any_answer);
    assert!(answers_of(LookupOutcome::Failed(LookupError::Timeout)).any_timeout);
    assert!(answers_of(LookupOutcome::Failed(LookupError::NoRecords)).all_nxdomain);
    assert!(answers_of(LookupOutcome::Failed(LookupError::Other)).any_error);
}

#[test]
fn probes_go_round_the_resolvers() {
    let probes = plan_probes("example.com", 5, &vec![3, 7]);
    let order: Vec<usize> = probes.iter().map(|p| p.resolver).collect();
    assert_eq!(order, vec![3, 7, 3, 7, 3]);
    assert!(probes.iter().all(|p| p.name.len() == 28 && p.name.ends_with(".example.com")));
}

#[test]
fn rounds_settle_zones() {
    let nx = || HostAnswers { all_nxdomain: true, ..Default::default() };
    let lost = || HostAnswers { any_timeout: true, ..Default::default() };
    let (sig, n) = summarize_round("z.com", &vec![nx(), lost(), answers(&["1.1.1.1"], &["c.net"])]);
    assert_eq!(n, 2);
    let sig = sig.unwrap();
    assert_eq!(sig.root, "z.com");
    assert_eq!(sig.ips, vec![ip("1.1.1.1")]);
    assert_eq!(sig.cnames, vec!["c.net".to_string()]);
    assert!(matches!(judge_one_round(6, None, 3), Ok(ParentState::Clean)));
    assert!(matches!(judge_one_round(6, None, 2), Err(None)));
    assert!(matches!(judge_one_round(3, None, 1), Err(None)));
    assert!(matches!(judge_one_round(3, None, 2), Ok(ParentState::Clean)));
    assert!(matches!(judge_one_round(0, None, 0), Err(None)));
    assert!(matches!(judge_one_round(1, Some(sig.duplicate()), 1), Ok(ParentState::Wildcard(_))));
    assert!(matches!(judge_two_rounds(None, 0, None, 0), ParentState::Dead));
    assert!(matches!(judge_two_rounds(None, 1, None, 0), ParentState::Clean));
    match judge_two_rounds(Some(sig), 1, Some(signature("z.com", &["2.2.2.2"], &["c.net"])), 0) {
        ParentState::Wildcard(s) => {
            assert_eq!(s.ips, vec![ip("1.1.1.1"), ip("2.2.2.2")]);
            assert_eq!(s.cnames, vec!["c.net".to_string()]);
        }
        _ => panic!("the zone is a wildcard"),
    }
}

#[test]
fn ancestors_are_collected_once() {
    let assets = vec![
        host("a.b.example.com", AssetKind::Subdomain),
        host("c.b.example.com", AssetKind::Subdomain),
        host("*.x.example.org", AssetKind::Wildcard),
        host("example.net", AssetKind::Apex),
        host("10.0.0.1", AssetKind::Ip),
    ];
    assert_eq!(
        collect_ancestors(&assets),
        vec!["b.example.com".to_string(), "example.com".to_string()]
    );
}

#[test]
fn hosts_to_ask_for_have_no_port() {
    let ask = |s: &str, kind: AssetKind| host_for_dns(&host(s, kind));
    assert_eq!(ask("a.com:81", AssetKind::Apex).as_deref(), Some("a.com"));
    assert_eq!(ask("[::1]:81", AssetKind::Ip).as_deref(), Some("::1"));
    assert_eq!(ask("::1", AssetKind::Ip).as_deref(), Some("::1"));
    assert_eq!(ask("*.a.com", AssetKind::Wildcard), None);
    assert_eq!(ask("x", AssetKind::Garbage), None);
    assert_eq!(ask("", AssetKind::Apex), None);
}

#[test]
fn scans_find_the_nearest_dead_zone_and_all_wildcards() {
    let mut zones = ZoneTable::new();
    zones.record("b.example.com".to_string(), ParentState::Wildcard(signature("b.example.com", &["1.1.1.1"], &[])));
    zones.record("example.com".to_string(), ParentState::Wildcard(signature("example.com", &["2.2.2.2"], &["c.net"])));
    zones.record("y.example.org".to_string(), ParentState::Clean);
    zones.record("example.org".to_string(), ParentState::Dead);
    let scan = zones.scan_ancestors("a.b.example.com");
    assert!(scan.dead_zone.is_none());
    let sig = scan.signature.unwrap();
    assert_eq!(sig.root, "b.example.com");
    assert_eq!(sig.ips, vec![ip("1.1.1.1"), ip("2.2.2.2")]);
    let scan = zones.scan_ancestors("x.y.example.org");
    assert_eq!(scan.dead_zone.as_deref(), Some("example.org"));
    assert!(scan.signature.is_none());
    let mut mixed = ZoneTable::new();
    mixed.record("b.example.com".to_string(), ParentState::Dead);
    mixed.record("example.com".to_string(), ParentState::Wildcard(signature("example.com", &["2.2.2.2"], &[])));
    let scan = mixed.scan_ancestors("a.b.example.com");
    assert_eq!(scan.dead_zone.as_deref(), Some("b.example.com"));
    assert_eq!(scan.signature.unwrap().root, "example.com");
    assert_eq!(zones.wildcard_roots(), vec!["*.b.example.com".to_string(), "*.example.com".to_string()]);
    assert_eq!(zones.dead_zones(), vec!["example.org".to_string()]);
    let c = zones.count();
    assert_eq!((c.total, c.wildcard, c.clean, c.dead), (4, 2, 1, 1));
    let one = unite_signatures(None, &signature("z", &["3.3.3.3"], &[])).unwrap();
    assert_eq!(one.root, "z");
}

#[test]
fn default_configuration_is_as_documented() {
    let c = DnsConfig::default();
    assert_eq!(c.resolvers.len(), 6);
    assert_eq!(c.resolvers[0].to_text(), "1.1.1.1:53");
    assert_eq!(c.resolvers[5].to_text(), "149.112.112.112:53");
    assert_eq!((c.concurrency, c.timeout_secs, c.retries), (50, 5, 2));
    assert_eq!(c.effective_probe_concurrency(), 25);
    assert!(c.flaky_enabled());
    let auto = DnsConfig { probe_concurrency: 0, concurrency: 100, ..DnsConfig::default() };
    assert_eq!(auto.effective_probe_concurrency(), 25);
    let large = DnsConfig { probe_concurrency: 0, concurrency: 200, ..DnsConfig::default() };
    assert_eq!(large.effective_probe_concurrency(), 50);
    assert!(large.hijack_probes_enabled());
    let off = DnsConfig { hijack_probe_interval_secs: 0, ..DnsConfig::default() };
    assert!(!off.hijack_probes_enabled());
    let mut single = DnsConfig::default();
    single.resolvers.truncate(1);
    assert!(!single.hijack_probes_enabled());
    let small = DnsConfig { probe_concurrency: 0, concurrency: 10, ..DnsConfig::default() };
    assert_eq!(small.effective_probe_concurrency(), 16);
    let off = DnsConfig { flaky_threshold: Ratio { num: 0, den: 1 }, ..DnsConfig::default() };
    assert!(!off.flaky_enabled());
}

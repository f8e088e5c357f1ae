use assetcanon::dns::answers::HostAnswers;
use assetcanon::dns::health::{
    classify_health, has_bad, health_score, percentile_nearest_rank, plan_round, sample_of, RawResolverHealth,
    ResolverCheckConfig, ResolverCheckKind, ResolverCheckOutcome, ResolverCheckSample,
    ResolverCheckSummary, ResolverHealth, ResolverHealthChecks, ResolverHealthStatus,
    ResolverLatencyStats, Share,
};
use assetcanon::ip::SocketAddr;
use assetcanon::output::{health_header, health_line};

fn health_sample(
    kind: ResolverCheckKind,
    outcome: ResolverCheckOutcome,
    latency_ms: u128,
) -> ResolverCheckSample {
    ResolverCheckSample {
        kind,
        outcome,
        latency_ms: Some(latency_ms),
    }
}

fn raw_health(samples: Vec<ResolverCheckSample>) -> RawResolverHealth {
    RawResolverHealth {
        resolver: SocketAddr::parse("127.0.0.1:53").unwrap(),
        samples,
        setup_error: None,
    }
}

#[test]
fn classify_health_ok_uses_score_without_status_overlap() {
    let health = classify_health(raw_health(vec![
        health_sample(ResolverCheckKind::Positive, ResolverCheckOutcome::Answer, 20),
        health_sample(ResolverCheckKind::NxdomainInvalid, ResolverCheckOutcome::Nxdomain, 20),
        health_sample(ResolverCheckKind::NxdomainRandom, ResolverCheckOutcome::Nxdomain, 20),
        health_sample(ResolverCheckKind::WildcardPollution, ResolverCheckOutcome::Nxdomain, 20),
    ]));
    assert_eq!(health.status, ResolverHealthStatus::Healthy);
    assert!(health.score >= 90);
}

#[test]
fn classify_health_hard_rules_bad_for_hijack_and_pollution() {
    let hijack = classify_health(raw_health(vec![
        health_sample(ResolverCheckKind::Positive, ResolverCheckOutcome::Answer, 20),
        health_sample(ResolverCheckKind::NxdomainInvalid, ResolverCheckOutcome::Answer, 20),
    ]));
    assert_eq!(hijack.status, ResolverHealthStatus::Bad);
    assert!(hijack.reasons.contains(&"nxdomain-hijack".to_string()));

    let pollution = classify_health(raw_health(vec![
        health_sample(ResolverCheckKind::Positive, ResolverCheckOutcome::Answer, 20),
        health_sample(ResolverCheckKind::NxdomainInvalid, ResolverCheckOutcome::Nxdomain, 20),
        health_sample(ResolverCheckKind::WildcardPollution, ResolverCheckOutcome::Answer, 20),
    ]));
    assert_eq!(pollution.status, ResolverHealthStatus::Bad);
    assert!(pollution.reasons.contains(&"wildcard-pollution".to_string()));
}

#[test]
fn classify_health_timeout_ratio_rules() {
    let warn = classify_health(raw_health(vec![
        health_sample(ResolverCheckKind::Positive, ResolverCheckOutcome::Answer, 20),
        health_sample(ResolverCheckKind::Positive, ResolverCheckOutcome::Answer, 20),
        health_sample(ResolverCheckKind::Positive, ResolverCheckOutcome::Timeout, 20),
        health_sample(ResolverCheckKind::NxdomainInvalid, ResolverCheckOutcome::Nxdomain, 20),
    ]));
    assert_eq!(warn.status, ResolverHealthStatus::Warn);

    let bad = classify_health(raw_health(vec![
        health_sample(ResolverCheckKind::Positive, ResolverCheckOutcome::Timeout, 20),
        health_sample(ResolverCheckKind::Positive, ResolverCheckOutcome::Timeout, 20),
        health_sample(ResolverCheckKind::Positive, ResolverCheckOutcome::Timeout, 20),
        health_sample(ResolverCheckKind::NxdomainInvalid, ResolverCheckOutcome::Nxdomain, 20),
    ]));
    assert_eq!(bad.status, ResolverHealthStatus::Bad);
}

#[test]
fn classify_health_p95_warn_requires_enough_positive_samples() {
    let mut few = Vec::new();
    for _ in 0..19 {
        few.push(health_sample(ResolverCheckKind::Positive, ResolverCheckOutcome::Answer, 1500));
    }
    let few = classify_health(raw_health(few));
    assert_eq!(few.status, ResolverHealthStatus::Healthy);
    assert_eq!(few.latency.p95_ms, None);

    let mut enough = Vec::new();
    for _ in 0..20 {
        enough.push(health_sample(ResolverCheckKind::Positive, ResolverCheckOutcome::Answer, 1500));
    }
    let enough = classify_health(raw_health(enough));
    assert_eq!(enough.status, ResolverHealthStatus::Warn);
    assert_eq!(enough.latency.p95_ms, Some(1500));
    assert!(enough.reasons.contains(&"p95>1000ms".to_string()));
}

/// Checks a resolver that answers as `answer` says, for five rounds.
fn checked(mut answer: impl FnMut(&str) -> HostAnswers) -> ResolverHealth {
    let config = ResolverCheckConfig { rounds: 5, concurrency: 1, ..ResolverCheckConfig::default() };
    let mut samples = Vec::new();
    for round in 0..config.effective_rounds() {
        for query in plan_round(round, &config.domains()) {
            samples.push(sample_of(query.kind, &answer(&query.name), 1));
        }
    }
    classify_health(raw_health(samples))
}

fn found() -> HostAnswers {
    HostAnswers { any_answer: true, ..Default::default() }
}

fn missing() -> HostAnswers {
    HostAnswers { all_nxdomain: true, ..Default::default() }
}

fn lost() -> HostAnswers {
    HostAnswers { any_timeout: true, ..Default::default() }
}

fn known(name: &str) -> bool {
    name == "example.com" || name == "iana.org"
}

#[test]
fn resolver_health_mock_ok_is_ok() {
    let health = checked(|name| if known(name) { found() } else { missing() });
    assert_eq!(health.status, ResolverHealthStatus::Healthy);
    assert_eq!(health.score, 100);
    assert_eq!(health.checks.positive.total, 10);
    assert_eq!(health.checks.nxdomain.total, 10);
    assert_eq!(health.checks.wildcard_pollution.passed, 10);
}

#[test]
fn resolver_health_mock_timeout_is_bad() {
    let health = checked(|_| lost());
    assert_eq!(health.status, ResolverHealthStatus::Bad);
    assert!(health.reasons.iter().any(|r| r.contains("timeout-ratio")));
}

#[test]
fn resolver_health_mock_hijack_is_bad() {
    let health = checked(|_| found());
    assert_eq!(health.status, ResolverHealthStatus::Bad);
    assert!(
        health.reasons.contains(&"nxdomain-hijack".to_string())
            || health.reasons.contains(&"wildcard-pollution".to_string())
    );
}

#[test]
fn resolver_health_mock_wildcard_pollution_is_bad() {
    let health = checked(|name| {
        if known(name) || name.ends_with(".example.com") || name.ends_with(".iana.org") {
            found()
        } else {
            missing()
        }
    });
    assert_eq!(health.status, ResolverHealthStatus::Bad);
    assert!(health.reasons.contains(&"wildcard-pollution".to_string()));
}

#[test]
fn resolver_health_mock_flaky_is_warn() {
    let mut count = 0;
    let health = checked(|name| {
        count += 1;
        if count % 2 == 1 {
            lost()
        } else if known(name) {
            found()
        } else {
            missing()
        }
    });
    assert_eq!(health.status, ResolverHealthStatus::Warn);
}

#[test]
fn failed_checks_are_errors() {
    let none = classify_health(raw_health(Vec::new()));
    assert_eq!(none.status, ResolverHealthStatus::Error);
    assert_eq!(none.reasons, vec!["no-samples".to_string()]);
    let mut raw = raw_health(Vec::new());
    raw.setup_error = Some("boom".to_string());
    let setup = classify_health(raw);
    assert_eq!(setup.status, ResolverHealthStatus::Error);
    assert_eq!(setup.reasons, vec!["setup-error:boom".to_string()]);
    assert_eq!(setup.timeout_ratio, Share { part: 0, total: 1 });
    let all = classify_health(raw_health(vec![health_sample(
        ResolverCheckKind::Positive,
        ResolverCheckOutcome::Error,
        1,
    )]));
    assert_eq!(all.reasons, vec!["all-errors".to_string()]);
    assert!(has_bad(&vec![all]));
    let fine = checked(|name| if known(name) { found() } else { missing() });
    assert!(!has_bad(&vec![fine]));
}

#[test]
fn scores_subtract_failures_and_slowness() {
    let sample = |kind, outcome, ms| health_sample(kind, outcome, ms);
    let health = classify_health(raw_health(vec![
        sample(ResolverCheckKind::Positive, ResolverCheckOutcome::Answer, 400),
        sample(ResolverCheckKind::Positive, ResolverCheckOutcome::Nxdomain, 400),
        sample(ResolverCheckKind::Positive, ResolverCheckOutcome::Answer, 400),
        sample(ResolverCheckKind::NxdomainInvalid, ResolverCheckOutcome::Nxdomain, 400),
    ]));
    assert_eq!(health.status, ResolverHealthStatus::Healthy);
    assert_eq!(health.score, 87);
    let slow = classify_health(raw_health(vec![sample(
        ResolverCheckKind::Positive,
        ResolverCheckOutcome::Answer,
        5000,
    )]));
    assert_eq!(slow.score, 80);
}

#[test]
fn percentiles_are_nearest_rank() {
    let v: Vec<u128> = (1..=20).collect();
    assert_eq!(percentile_nearest_rank(&v, 50), 10);
    assert_eq!(percentile_nearest_rank(&v, 95), 19);
    assert_eq!(percentile_nearest_rank(&v, 0), 1);
    assert_eq!(percentile_nearest_rank(&v, 100), 20);
    assert_eq!(percentile_nearest_rank(&vec![7], 95), 7);
    let health = classify_health(raw_health(
        [50u128, 10, 40, 20]
            .iter()
            .map(|ms| health_sample(ResolverCheckKind::Positive, ResolverCheckOutcome::Answer, *ms))
            .collect(),
    ));
    assert_eq!(health.latency.p50_ms, Some(20));
    assert_eq!(health.latency.max_ms, Some(50));
}

#[test]
fn rounds_ask_for_known_and_random_names() {
    let q = plan_round(2, &vec!["example.com.".to_string()]);
    assert_eq!(q.len(), 4);
    assert_eq!(q[0].kind, ResolverCheckKind::Positive);
    assert_eq!(q[0].name, "example.com.");
    assert_eq!(q[1].kind, ResolverCheckKind::WildcardPollution);
    assert!(q[1].name.starts_with("ac-wild-2-") && q[1].name.ends_with(".example.com"));
    assert_eq!(q[2].kind, ResolverCheckKind::NxdomainInvalid);
    assert!(q[2].name.starts_with("ac-nx-2-") && q[2].name.ends_with(".assetcanon-check.invalid"));
    assert_eq!(q[3].kind, ResolverCheckKind::NxdomainRandom);
    assert!(q[3].name.starts_with("ac-ex-2-") && q[3].name.ends_with(".example.com"));
    let c = ResolverCheckConfig { positive_domains: Vec::new(), rounds: 0, concurrency: 0 };
    assert_eq!(c.domains(), vec!["example.com".to_string(), "iana.org".to_string()]);
    assert_eq!(c.effective_rounds(), 1);
    assert_eq!(c.effective_concurrency(0), 1);
    assert_eq!(c.effective_concurrency(7), 7);
    assert_eq!(c.effective_concurrency(70), 50);
}

#[test]
fn health_lines_have_the_columns_of_the_header() {
    let fine = checked(|name| if known(name) { found() } else { missing() });
    let line = health_line(&fine, "0.00");
    assert_eq!(line, "127.0.0.1:53\tok\t100\t1\t1\t-\t0.00\t10/10\t10/10\t10/10\t-");
    assert_eq!(
        line.split('\t').count(),
        health_header().split('\t').count()
    );
}

#[test]
fn the_order_of_latencies_does_not_matter() {
    let summed = |ms: &[u128]| {
        classify_health(raw_health(
            ms.iter()
                .map(|t| health_sample(ResolverCheckKind::Positive, ResolverCheckOutcome::Answer, *t))
                .collect(),
        ))
        .latency
    };
    let a = summed(&[30, 10, 40, 20]);
    let b = summed(&[10, 20, 30, 40]);
    assert_eq!((a.p50_ms, a.max_ms, a.p95_ms), (Some(20), Some(40), None));
    assert_eq!((b.p50_ms, b.max_ms, b.p95_ms), (a.p50_ms, a.max_ms, a.p95_ms));
}

#[test]
fn scores_are_exact_for_any_counts() {
    let all = |total: usize| ResolverCheckSummary { passed: total, total };
    let latency = |p50_ms: Option<u128>| ResolverLatencyStats { p50_ms, max_ms: None, p95_ms: None };
    let n: usize = 1 << 32;
    let total = 200 * n;
    let checks = ResolverHealthChecks {
        positive: all(total),
        nxdomain: all(0),
        wildcard_pollution: all(0),
    };
    assert_eq!(health_score(&checks, &latency(Some(250)), 0, total), 100);
    assert_eq!(health_score(&checks, &latency(None), n, total), 100);
    assert_eq!(health_score(&checks, &latency(None), n + 1, total), 99);
    assert_eq!(health_score(&checks, &latency(Some(300)), n + 1, total), 98);
    assert_eq!(health_score(&checks, &latency(Some(u128::MAX)), 0, total), 80);
    assert_eq!(health_score(&checks, &latency(None), total, total), 0);
    let failed = ResolverHealthChecks {
        positive: ResolverCheckSummary { passed: 0, total: usize::MAX },
        nxdomain: ResolverCheckSummary { passed: 0, total: usize::MAX },
        wildcard_pollution: ResolverCheckSummary { passed: 0, total: usize::MAX },
    };
    assert_eq!(health_score(&failed, &latency(None), 0, usize::MAX), 20);
    assert_eq!(health_score(&failed, &latency(None), usize::MAX, usize::MAX), 0);
}

//! Health checks of resolvers.

use vstd::prelude::*;
use vstd::relations::total_ordering;

use crate::big::Big;
use crate::dns::answers::{AnswersView, HostAnswers};
use crate::dns::probe::random_check_label;
use crate::ip::SocketAddr;
use crate::lists::{lemma_tally_bound, lemma_tally_some, tally};
use crate::numbers::decimal;
use crate::order::{item_order, sort_items, sorted_items, Ordered};
use crate::text::{
    chars_of, concat, copy_texts, has_only, string_of, texts, trim_end, without_trailing, CharClass,
};

verus! {

/// How resolvers are checked.
#[derive(Debug, Clone)]
pub struct ResolverCheckConfig {
    /// Names that must resolve.
    pub positive_domains: Vec<String>,
    pub rounds: usize,
    /// Resolvers checked at a time; zero means all, but at most 50.
    pub concurrency: usize,
}

/// The names that must resolve unless others are given.
pub open spec fn default_domains() -> Seq<Seq<char>> {
    seq!["example.com"@, "iana.org"@]
}

fn default_domain_list() -> (r: Vec<String>)
    ensures
        texts(r@) == default_domains(),
{
    let mut v: Vec<String> = Vec::new();
    v.push("example.com".to_string());
    v.push("iana.org".to_string());
    assert(texts(v@) =~= default_domains());
    v
}

impl Default for ResolverCheckConfig {
    fn default() -> (r: Self)
        ensures
            texts(r.positive_domains@) == default_domains(),
            r.rounds == 5,
            r.concurrency == 0,
    {
        ResolverCheckConfig { positive_domains: default_domain_list(), rounds: 5, concurrency: 0 }
    }
}

impl ResolverCheckConfig {
    /// The names that must resolve: those given, or else the default ones.
    pub fn domains(&self) -> (r: Vec<String>)
        ensures
            texts(r@) == (if self.positive_domains@.len() == 0 {
                default_domains()
            } else {
                texts(self.positive_domains@)
            }),
    {
        if self.positive_domains.len() == 0 {
            default_domain_list()
        } else {
            copy_texts(&self.positive_domains)
        }
    }

    /// The number of rounds; at least one.
    pub fn effective_rounds(&self) -> (r: usize)
        ensures
            r == (if self.rounds >= 1 {
                self.rounds
            } else {
                1
            }),
    {
        if self.rounds >= 1 {
            self.rounds
        } else {
            1
        }
    }

    /// Resolvers checked at a time, out of `resolvers`; at least one.
    pub fn effective_concurrency(&self, resolvers: usize) -> (r: usize)
        ensures
            self.concurrency > 0 ==> r == self.concurrency,
            self.concurrency == 0 ==> r == (if resolvers < 1 {
                1
            } else if resolvers > 50 {
                50
            } else {
                resolvers
            }),
    {
        if self.concurrency > 0 {
            self.concurrency
        } else if resolvers < 1 {
            1
        } else if resolvers > 50 {
            50
        } else {
            resolvers
        }
    }
}

/// The result of a check.
#[derive(Debug, Clone, Copy, PartialEq, Eq, Structural)]
pub enum ResolverHealthStatus {
    Healthy,
    Warn,
    Bad,
    Error,
}

/// Latencies in milliseconds.
#[derive(Debug, Clone, Copy, PartialEq, Eq, Structural)]
pub struct ResolverLatencyStats {
    pub p50_ms: Option<u128>,
    pub max_ms: Option<u128>,
    pub p95_ms: Option<u128>,
}

/// How many checks of one sort passed.
#[derive(Debug, Clone, Copy, PartialEq, Eq, Structural)]
pub struct ResolverCheckSummary {
    pub passed: usize,
    pub total: usize,
}

impl Default for ResolverCheckSummary {
    fn default() -> (r: Self)
        ensures
            r == (ResolverCheckSummary { passed: 0, total: 0 }),
    {
        ResolverCheckSummary { passed: 0, total: 0 }
    }
}

/// How many checks of each sort passed.
#[derive(Debug, Clone, Copy, PartialEq, Eq, Structural)]
pub struct ResolverHealthChecks {
    pub positive: ResolverCheckSummary,
    pub nxdomain: ResolverCheckSummary,
    pub wildcard_pollution: ResolverCheckSummary,
}

/// No checks.
pub open spec fn no_checks() -> ResolverHealthChecks {
    let none = ResolverCheckSummary { passed: 0, total: 0 };
    ResolverHealthChecks { positive: none, nxdomain: none, wildcard_pollution: none }
}

impl Default for ResolverHealthChecks {
    fn default() -> (r: Self)
        ensures
            r == no_checks(),
    {
        ResolverHealthChecks {
            positive: ResolverCheckSummary::default(),
            nxdomain: ResolverCheckSummary::default(),
            wildcard_pollution: ResolverCheckSummary::default(),
        }
    }
}

/// A part of a total.
#[derive(Debug, Clone, Copy, PartialEq, Eq, Structural)]
pub struct Share {
    pub part: usize,
    pub total: usize,
}

/// The health of a resolver.
#[derive(Debug, Clone)]
pub struct ResolverHealth {
    pub resolver: SocketAddr,
    pub status: ResolverHealthStatus,
    pub score: u8,
    pub latency: ResolverLatencyStats,
    /// Timeouts out of all queries.
    pub timeout_ratio: Share,
    pub checks: ResolverHealthChecks,
    pub reasons: Vec<String>,
}

/// What a query of a check is meant to show.
#[derive(Debug, Clone, Copy, PartialEq, Eq, Structural)]
pub enum ResolverCheckKind {
    /// A name that must resolve.
    Positive,
    /// A name under `.invalid`.
    NxdomainInvalid,
    /// A random name under `example.com`.
    NxdomainRandom,
    /// A random name below a name that must resolve.
    WildcardPollution,
}

/// What a query of a check brought.
#[derive(Debug, Clone, Copy, PartialEq, Eq, Structural)]
pub enum ResolverCheckOutcome {
    Answer,
    Nxdomain,
    Timeout,
    Error,
}

/// One query of a check.
#[derive(Debug, Clone, Copy, PartialEq, Eq, Structural)]
pub struct ResolverCheckSample {
    pub kind: ResolverCheckKind,
    pub outcome: ResolverCheckOutcome,
    pub latency_ms: Option<u128>,
}

/// The queries of a check, or why it could not be done.
#[derive(Debug, Clone)]
pub struct RawResolverHealth {
    pub resolver: SocketAddr,
    pub samples: Vec<ResolverCheckSample>,
    pub setup_error: Option<String>,
}

// ---------------------------------------------------------------------------
// Queries

/// What answers mean for a check.
pub open spec fn check_outcome(a: AnswersView) -> ResolverCheckOutcome {
    if a.any_answer {
        ResolverCheckOutcome::Answer
    } else if a.all_nxdomain {
        ResolverCheckOutcome::Nxdomain
    } else if a.any_timeout {
        ResolverCheckOutcome::Timeout
    } else {
        ResolverCheckOutcome::Error
    }
}

/// The sample that a query brought.
pub fn sample_of(kind: ResolverCheckKind, answers: &HostAnswers, latency_ms: u128) -> (r:
    ResolverCheckSample)
    ensures
        r == (ResolverCheckSample {
            kind,
            outcome: check_outcome(answers@),
            latency_ms: Some(latency_ms),
        }),
{
    let outcome = if answers.any_answer {
        ResolverCheckOutcome::Answer
    } else if answers.all_nxdomain {
        ResolverCheckOutcome::Nxdomain
    } else if answers.any_timeout {
        ResolverCheckOutcome::Timeout
    } else {
        ResolverCheckOutcome::Error
    };
    ResolverCheckSample { kind, outcome, latency_ms: Some(latency_ms) }
}

/// A query to make.
#[derive(Debug, Clone)]
pub struct CheckQuery {
    pub kind: ResolverCheckKind,
    pub name: String,
}

/// Whether a name is a random check label below a zone.
pub open spec fn is_check_name(
    name: Seq<char>,
    round: nat,
    prefix: Seq<char>,
    zone: Seq<char>,
) -> bool {
    let head = "ac-"@ + prefix + seq!['-'] + decimal(round) + seq!['-'];
    &&& name.len() == head.len() + 10 + 1 + zone.len()
    &&& name.take(head.len() as int) == head
    &&& has_only(name.subrange(head.len() as int, head.len() as int + 10), CharClass::LabelEdge)
    &&& name.skip(head.len() as int + 10) == seq!['.'] + zone
}

fn check_name(round: usize, prefix: &str, zone: &str) -> (r: String)
    ensures
        is_check_name(r@, round as nat, prefix@, zone@),
{
    let label = random_check_label(round, prefix);
    let ghost l = label@;
    let mut name = label;
    name.push('.');
    name.append(zone);
    proof {
        let head = "ac-"@ + prefix@ + seq!['-'] + decimal(round as nat) + seq!['-'];
        reveal_strlit("ac-");
        assert(head.len() == l.len() - 10);
        assert(name@.take(head.len() as int) =~= l.take(l.len() - 10));
        assert(name@.subrange(head.len() as int, head.len() as int + 10) =~= l.skip(l.len() - 10));
        assert(name@.skip(head.len() as int + 10) =~= seq!['.'] + zone@);
    }
    name
}

/// Whether the `i`-th pair of queries is for a name that must resolve: the name itself,
/// and a random name below it.
pub open spec fn is_pair(q: Seq<CheckQuery>, i: int, round: nat, domain: Seq<char>) -> bool {
    &&& q[2 * i].kind is Positive
    &&& q[2 * i].name@ == domain
    &&& q[2 * i + 1].kind is WildcardPollution
    &&& is_check_name(
        q[2 * i + 1].name@,
        round,
        "wild"@,
        without_trailing(domain, CharClass::Is('.')),
    )
}

/// Whether queries are those of one round: for each name that must resolve, the name
/// itself and a random name below it; then a name under `.invalid` and a random name
/// under `example.com`.
pub open spec fn is_round(q: Seq<CheckQuery>, round: nat, domains: Seq<Seq<char>>) -> bool {
    let n = domains.len() as int;
    &&& q.len() == 2 * n + 2
    &&& forall|i: int| 0 <= i < n ==> #[trigger] is_pair(q, i, round, domains[i])
    &&& q[2 * n].kind is NxdomainInvalid
    &&& is_check_name(q[2 * n].name@, round, "nx"@, "assetcanon-check.invalid"@)
    &&& q[2 * n + 1].kind is NxdomainRandom
    &&& is_check_name(q[2 * n + 1].name@, round, "ex"@, "example.com"@)
}

/// Plans the queries of one round.
pub fn plan_round(round: usize, domains: &Vec<String>) -> (r: Vec<CheckQuery>)
    ensures
        is_round(r@, round as nat, texts(domains@)),
{
    let ghost all = texts(domains@);
    let mut q: Vec<CheckQuery> = Vec::new();
    let mut i: usize = 0;
    while i < domains.len()
        invariant
            i <= domains@.len(),
            all == texts(domains@),
            q@.len() == 2 * i,
            forall|j: int| 0 <= j < i ==> #[trigger] is_pair(q@, j, round as nat, all[j]),
        decreases domains.len() - i,
    {
        let ghost before = q@;
        assert(all[i as int] == domains@[i as int]@);
        q.push(CheckQuery { kind: ResolverCheckKind::Positive, name: domains[i].clone() });
        let chars = chars_of(domains[i].as_str());
        let zone = string_of(trim_end(chars.as_slice(), CharClass::Is('.')));
        q.push(
            CheckQuery {
                kind: ResolverCheckKind::WildcardPollution,
                name: check_name(round, "wild", zone.as_str()),
            },
        );
        assert(forall|j: int| 0 <= j < before.len() ==> q@[j] == before[j]);
        assert forall|j: int| 0 <= j < i + 1 implies #[trigger] is_pair(
            q@,
            j,
            round as nat,
            all[j],
        ) by {
            if j < i {
                assert(is_pair(before, j, round as nat, all[j]));
            }
        }
        i += 1;
    }
    let ghost pairs = q@;
    q.push(
        CheckQuery {
            kind: ResolverCheckKind::NxdomainInvalid,
            name: check_name(round, "nx", "assetcanon-check.invalid"),
        },
    );
    q.push(
        CheckQuery {
            kind: ResolverCheckKind::NxdomainRandom,
            name: check_name(round, "ex", "example.com"),
        },
    );
    assert(forall|j: int| 0 <= j < pairs.len() ==> q@[j] == pairs[j]);
    assert forall|j: int| 0 <= j < all.len() implies #[trigger] is_pair(
        q@,
        j,
        round as nat,
        all[j],
    ) by {
        assert(is_pair(pairs, j, round as nat, all[j]));
    }
    q
}

// ---------------------------------------------------------------------------
// Latency

/// The nearest-rank percentile of sorted values: the least one that at least `percent`
/// of a hundred are at or below.
pub open spec fn percentile(sorted: Seq<u128>, percent: int) -> u128 {
    let rank = (sorted.len() * percent + 99) / 100;
    sorted[if rank < 1 {
        0
    } else if rank > sorted.len() {
        sorted.len() - 1
    } else {
        rank - 1
    }]
}

/// The nearest-rank percentile of sorted values.
pub fn percentile_nearest_rank(sorted: &Vec<u128>, percent: u8) -> (r: u128)
    requires
        sorted@.len() > 0,
    ensures
        r == percentile(sorted@, percent as int),
{
    let n: usize = sorted.len();
    assert(n * percent <= 0xffff_ffff_ffff_ffff * 255) by (nonlinear_arith)
        requires
            0 <= n <= 0xffff_ffff_ffff_ffff,
            0 <= percent <= 255,
    ;
    let rank: u128 = (n as u128 * percent as u128 + 99) / 100;
    if rank < 1 {
        sorted[0]
    } else if rank > n as u128 {
        sorted[n - 1]
    } else {
        sorted[rank as usize - 1]
    }
}

/// The latencies of samples that have one.
pub open spec fn latencies(v: Seq<ResolverCheckSample>) -> Seq<u128>
    decreases v.len(),
{
    if v.len() == 0 {
        Seq::empty()
    } else {
        match v.last().latency_ms {
            Some(ms) => latencies(v.drop_last()).push(ms),
            None => latencies(v.drop_last()),
        }
    }
}

/// Median, maximum and, if it is asked for, the 95th percentile.
pub open spec fn latency_summary(v: Seq<u128>, with_p95: bool) -> ResolverLatencyStats {
    let sorted = sorted_items(v);
    if v.len() == 0 {
        ResolverLatencyStats { p50_ms: None, max_ms: None, p95_ms: None }
    } else {
        ResolverLatencyStats {
            p50_ms: Some(percentile(sorted, 50)),
            max_ms: Some(sorted.last()),
            p95_ms: if with_p95 {
                Some(percentile(sorted, 95))
            } else {
                None
            },
        }
    }
}

fn latency_stats(samples: &Vec<u128>, include_p95: bool) -> (r: ResolverLatencyStats)
    ensures
        r == latency_summary(samples@, include_p95),
{
    if samples.len() == 0 {
        return ResolverLatencyStats { p50_ms: None, max_ms: None, p95_ms: None };
    }
    let sorted = sort_items(samples);
    let p50: u128 = percentile_nearest_rank(&sorted, 50);
    let p95 = if include_p95 {
        Some(percentile_nearest_rank(&sorted, 95))
    } else {
        None
    };
    ResolverLatencyStats {
        p50_ms: Some(p50),
        max_ms: Some(sorted[sorted.len() - 1]),
        p95_ms: p95,
    }
}

// ---------------------------------------------------------------------------
// Score

/// A count that divides: one where it is zero.
pub open spec fn divisor(n: int) -> int {
    if n == 0 {
        1
    } else {
        n
    }
}

/// Milliseconds by which the median exceeds 250, at most 1000.
pub open spec fn slowness(p50: Option<u128>) -> int {
    match p50 {
        Some(ms) => if ms <= 250 {
            0
        } else if ms >= 1250 {
            1000
        } else {
            ms - 250
        },
        None => 0,
    }
}

/// A hundred, less a hundred times the share of timeouts, thirty times the share of
/// failed positive checks, thirty times that of failed NXDOMAIN checks, twenty times that
/// of failed pollution checks, and one for each fifty milliseconds of slowness; as a
/// numerator over `score_base`.
pub open spec fn score_parts(
    c: ResolverHealthChecks,
    p50: Option<u128>,
    timeouts: int,
    total: int,
) -> int {
    let (t, p, n, w) = (
        divisor(total),
        divisor(c.positive.total as int),
        divisor(c.nxdomain.total as int),
        divisor(c.wildcard_pollution.total as int),
    );
    5000 * (t * p * n * w) - 5000 * timeouts * (p * n * w) - 1500 * (c.positive.total
        - c.positive.passed) * (t * n * w) - 1500 * (c.nxdomain.total - c.nxdomain.passed) * (t * p
        * w) - 1000 * (c.wildcard_pollution.total - c.wildcard_pollution.passed) * (t * p * n)
        - slowness(p50) * (t * p * n * w)
}

/// The common denominator of the score.
pub open spec fn score_base(c: ResolverHealthChecks, total: int) -> int {
    50 * (divisor(total) * divisor(c.positive.total as int) * divisor(c.nxdomain.total as int)
        * divisor(c.wildcard_pollution.total as int))
}

/// The score: the nearest whole number, not below zero.
pub open spec fn score(
    c: ResolverHealthChecks,
    p50: Option<u128>,
    timeouts: int,
    total: int,
) -> int {
    let x = score_parts(c, p50, timeouts, total);
    let d = score_base(c, total);
    if x <= 0 {
        0
    } else {
        (2 * x + d) / (2 * d)
    }
}

/// Whether no more checks passed than there were.
pub open spec fn scorable(c: ResolverHealthChecks) -> bool {
    &&& c.positive.passed <= c.positive.total
    &&& c.nxdomain.passed <= c.nxdomain.total
    &&& c.wildcard_pollution.passed <= c.wildcard_pollution.total
}

fn or_one(n: usize) -> (r: u64)
    ensures
        r == divisor(n as int),
{
    if n == 0 {
        1
    } else {
        n as u64
    }
}

fn slow_ms(p50: Option<u128>) -> (r: u64)
    ensures
        r == slowness(p50),
{
    match p50 {
        Some(ms) => if ms <= 250 {
            0
        } else if ms >= 1250 {
            1000
        } else {
            (ms - 250) as u64
        },
        None => 0,
    }
}

/// The product of three counts.
fn product(a: u64, b: u64, c: u64) -> (r: Big)
    ensures
        r.value() == a * b * c,
{
    Big::of(a).times(b).times(c)
}

/// A penalty: `factor` times `count`, times `rest`.
fn penalty(factor: u64, count: usize, rest: &Big) -> (r: Big)
    ensures
        r.value() == factor * count * rest.value(),
{
    let r = rest.times(factor).times(count as u64);
    proof {
        let (f, c, v) = (factor as int, count as int, rest.value());
        assert(v * f * c == f * c * v) by (nonlinear_arith);
    }
    r
}

/// A whole number is no larger than a rounded fraction exactly when the fraction is at
/// least half below it.
proof fn lemma_rounded(x: int, d: int, k: int)
    requires
        d > 0,
        x > 0,
    ensures
        k <= (2 * x + d) / (2 * d) <==> 2 * x + d >= 2 * d * k,
{
    let (y, e) = (2 * x + d, 2 * d);
    let q = y / e;
    assert(y == e * q + y % e && 0 <= y % e < e) by (nonlinear_arith)
        requires
            e > 0,
            q == y / e,
    ;
    if k <= q {
        assert(e * k <= e * q) by (nonlinear_arith)
            requires
                k <= q,
                e > 0,
        ;
    } else {
        assert(e * k >= e * q + e) by (nonlinear_arith)
            requires
                k >= q + 1,
                e > 0,
        ;
    }
}

/// The score of a resolver, from a hundred down to zero, by its failed checks, its timeouts
/// and its median latency.
pub fn health_score(
    checks: &ResolverHealthChecks,
    latency: &ResolverLatencyStats,
    timeouts: usize,
    total: usize,
) -> (r: u8)
    requires
        scorable(*checks),
    ensures
        r == score(*checks, latency.p50_ms, timeouts as int, total as int),
        r <= 100,
{
    let c = *checks;
    let t: u64 = or_one(total);
    let p: u64 = or_one(c.positive.total);
    let n: u64 = or_one(c.nxdomain.total);
    let w: u64 = or_one(c.wildcard_pollution.total);
    let tpn = product(t, p, n);
    let all = tpn.times(w);
    let lost = penalty(5000, timeouts, &product(p, n, w)).plus(
        &penalty(1500, c.positive.total - c.positive.passed, &product(t, n, w)),
    ).plus(&penalty(1500, c.nxdomain.total - c.nxdomain.passed, &product(t, p, w))).plus(
        &penalty(1000, c.wildcard_pollution.total - c.wildcard_pollution.passed, &tpn),
    ).plus(&all.times(slow_ms(latency.p50_ms)));
    let twice = lost.times(2);
    let limit = all.times(10050);
    let ghost x = score_parts(c, latency.p50_ms, timeouts as int, total as int);
    let ghost d = score_base(c, total as int);
    proof {
        let a = all.value();
        let s = slowness(latency.p50_ms);
        assert(a == t * p * n * w);
        assert(a * s == s * a) by (nonlinear_arith);
        assert(x == 5000 * a - lost.value());
        assert(d == 50 * a);
        lemma_positive_product(t as int, p as int, n as int, w as int);
    }
    let mut k: u64 = 100;
    while k > 0
        invariant
            k <= 100,
            all.value() > 0,
            limit.value() == all.value() * 10050,
            twice.value() == lost.value() * 2,
            x == 5000 * all.value() - lost.value(),
            d == 50 * all.value(),
            x == score_parts(*checks, latency.p50_ms, timeouts as int, total as int),
            d == score_base(*checks, total as int),
            k < 100 ==> 2 * x + d < 2 * d * (k + 1),
        decreases k,
    {
        let needed = all.times(100 * k).plus(&twice);
        proof {
            let (a, ki) = (all.value(), k as int);
            assert(a * (100 * ki) == 2 * (50 * a) * ki) by (nonlinear_arith);
        }
        if limit.is_at_least(&needed) {
            proof {
                let ki = k as int;
                assert(2 * d * ki >= 2 * d) by (nonlinear_arith)
                    requires
                        ki >= 1,
                        d > 0,
                ;
                lemma_rounded(x, d, ki);
                lemma_rounded(x, d, ki + 1);
            }
            return k as u8;
        }
        k -= 1;
    }
    proof {
        if x > 0 {
            lemma_rounded(x, d, 0);
            lemma_rounded(x, d, 1);
        }
    }
    0
}

proof fn lemma_positive_product(a: int, b: int, c: int, d: int)
    requires
        a > 0,
        b > 0,
        c > 0,
        d > 0,
    ensures
        a * b * c * d > 0,
{
    assert(a * b > 0) by (nonlinear_arith)
        requires
            a > 0,
            b > 0,
    ;
    let ab = a * b;
    assert(ab * c > 0) by (nonlinear_arith)
        requires
            ab > 0,
            c > 0,
    ;
    let abc = ab * c;
    assert(abc * d > 0) by (nonlinear_arith)
        requires
            abc > 0,
            d > 0,
    ;
}

// ---------------------------------------------------------------------------
// Classification

/// What is counted over the samples of a check.
pub struct CheckCounts {
    pub checks: ResolverHealthChecks,
    pub timeouts: usize,
    pub errors: usize,
    pub hijacked: bool,
    pub polluted: bool,
}

/// Whether a query asks for a name that must not exist.
pub open spec fn is_nxdomain_check(s: ResolverCheckSample) -> bool {
    s.kind is NxdomainInvalid || s.kind is NxdomainRandom
}

/// Whether counts are those of samples.
pub open spec fn counted(c: CheckCounts, v: Seq<ResolverCheckSample>) -> bool {
    &&& c.timeouts == tally(v, |s: ResolverCheckSample| s.outcome is Timeout)
    &&& c.errors == tally(v, |s: ResolverCheckSample| s.outcome is Error)
    &&& c.checks.positive.total == tally(v, |s: ResolverCheckSample| s.kind is Positive)
    &&& c.checks.positive.passed == tally(
        v,
        |s: ResolverCheckSample| s.kind is Positive && s.outcome is Answer,
    )
    &&& c.checks.nxdomain.total == tally(v, |s: ResolverCheckSample| is_nxdomain_check(s))
    &&& c.checks.nxdomain.passed == tally(
        v,
        |s: ResolverCheckSample| is_nxdomain_check(s) && s.outcome is Nxdomain,
    )
    &&& c.checks.wildcard_pollution.total == tally(
        v,
        |s: ResolverCheckSample| s.kind is WildcardPollution,
    )
    &&& c.checks.wildcard_pollution.passed == tally(
        v,
        |s: ResolverCheckSample| s.kind is WildcardPollution && s.outcome is Nxdomain,
    )
    &&& c.hijacked == (tally(
        v,
        |s: ResolverCheckSample| s.kind is NxdomainInvalid && s.outcome is Answer,
    ) > 0)
    &&& c.polluted == (tally(
        v,
        |s: ResolverCheckSample|
            (s.kind is NxdomainRandom || s.kind is WildcardPollution) && s.outcome is Answer,
    ) > 0)
}

/// The status of a resolver and the reason for it, from the counts.
pub open spec fn health_verdict(
    c: CheckCounts,
    total: int,
    latency: ResolverLatencyStats,
) -> (ResolverHealthStatus, Seq<Seq<char>>) {
    if c.errors == total {
        (ResolverHealthStatus::Error, seq!["all-errors"@])
    } else if c.hijacked {
        (ResolverHealthStatus::Bad, seq!["nxdomain-hijack"@])
    } else if c.polluted {
        (ResolverHealthStatus::Bad, seq!["wildcard-pollution"@])
    } else if 2 * c.timeouts > total {
        (ResolverHealthStatus::Bad, seq!["timeout-ratio>50%"@])
    } else if 10 * c.timeouts >= total {
        (ResolverHealthStatus::Warn, seq!["timeout-ratio>=10%"@])
    } else if latency.p95_ms is Some && latency.p95_ms->0 > 1000 {
        (ResolverHealthStatus::Warn, seq!["p95>1000ms"@])
    } else {
        (ResolverHealthStatus::Healthy, Seq::empty())
    }
}

fn count_samples(samples: &Vec<ResolverCheckSample>) -> (r: (CheckCounts, Vec<u128>))
    ensures
        counted(r.0, samples@),
        r.1@ == latencies(samples@),
{
    let mut c = CheckCounts {
        checks: ResolverHealthChecks::default(),
        timeouts: 0,
        errors: 0,
        hijacked: false,
        polluted: false,
    };
    let mut ms: Vec<u128> = Vec::new();
    let ghost v = samples@;
    assert(v.take(0) =~= Seq::empty());
    let mut i: usize = 0;
    while i < samples.len()
        invariant
            i <= samples@.len(),
            v == samples@,
            counted(c, v.take(i as int)),
            ms@ == latencies(v.take(i as int)),
        decreases samples.len() - i,
    {
        let s = samples[i];
        let ghost before = v.take(i as int);
        assert(v.take(i + 1).drop_last() =~= before);
        assert(v.take(i + 1).last() == s);
        proof {
            lemma_tally_bound(before, |s: ResolverCheckSample| s.outcome is Timeout);
            lemma_tally_bound(before, |s: ResolverCheckSample| s.outcome is Error);
            lemma_tally_bound(before, |s: ResolverCheckSample| s.kind is Positive);
            lemma_tally_bound(
                before,
                |s: ResolverCheckSample| s.kind is Positive && s.outcome is Answer,
            );
            lemma_tally_bound(before, |s: ResolverCheckSample| is_nxdomain_check(s));
            lemma_tally_bound(
                before,
                |s: ResolverCheckSample| is_nxdomain_check(s) && s.outcome is Nxdomain,
            );
            lemma_tally_bound(before, |s: ResolverCheckSample| s.kind is WildcardPollution);
            lemma_tally_bound(
                before,
                |s: ResolverCheckSample| s.kind is WildcardPollution && s.outcome is Nxdomain,
            );
        }
        if let Some(t) = s.latency_ms {
            ms.push(t);
        }
        if s.outcome == ResolverCheckOutcome::Timeout {
            c.timeouts += 1;
        }
        if s.outcome == ResolverCheckOutcome::Error {
            c.errors += 1;
        }
        match s.kind {
            ResolverCheckKind::Positive => {
                c.checks.positive.total += 1;
                if s.outcome == ResolverCheckOutcome::Answer {
                    c.checks.positive.passed += 1;
                }
            },
            ResolverCheckKind::NxdomainInvalid | ResolverCheckKind::NxdomainRandom => {
                c.checks.nxdomain.total += 1;
                if s.outcome == ResolverCheckOutcome::Nxdomain {
                    c.checks.nxdomain.passed += 1;
                }
                if s.outcome == ResolverCheckOutcome::Answer {
                    if s.kind == ResolverCheckKind::NxdomainInvalid {
                        c.hijacked = true;
                    } else {
                        c.polluted = true;
                    }
                }
            },
            ResolverCheckKind::WildcardPollution => {
                c.checks.wildcard_pollution.total += 1;
                if s.outcome == ResolverCheckOutcome::Nxdomain {
                    c.checks.wildcard_pollution.passed += 1;
                }
                if s.outcome == ResolverCheckOutcome::Answer {
                    c.polluted = true;
                }
            },
        }
        i += 1;
    }
    assert(v.take(i as int) =~= v);
    (c, ms)
}

fn one_reason(s: &str) -> (r: Vec<String>)
    ensures
        texts(r@) == seq![s@],
{
    let mut v: Vec<String> = Vec::new();
    v.push(s.to_string());
    assert(texts(v@) =~= seq![s@]);
    v
}

proof fn lemma_tally_le<A>(v: Seq<A>, p: spec_fn(A) -> bool, q: spec_fn(A) -> bool)
    requires
        forall|x: A| #[trigger] p(x) ==> q(x),
    ensures
        tally(v, p) <= tally(v, q),
    decreases v.len(),
{
    if v.len() > 0 {
        lemma_tally_le(v.drop_last(), p, q);
    }
}

proof fn lemma_counts_are_scorable(c: CheckCounts, v: Seq<ResolverCheckSample>)
    requires
        counted(c, v),
    ensures
        scorable(c.checks),
{
    lemma_tally_le(
        v,
        |s: ResolverCheckSample| s.kind is Positive && s.outcome is Answer,
        |s: ResolverCheckSample| s.kind is Positive,
    );
    lemma_tally_le(
        v,
        |s: ResolverCheckSample| is_nxdomain_check(s) && s.outcome is Nxdomain,
        |s: ResolverCheckSample| is_nxdomain_check(s),
    );
    lemma_tally_le(
        v,
        |s: ResolverCheckSample| s.kind is WildcardPollution && s.outcome is Nxdomain,
        |s: ResolverCheckSample| s.kind is WildcardPollution,
    );
}

/// Whether a result is that of a check with samples.
pub open spec fn is_health_of(h: ResolverHealth, raw: RawResolverHealth) -> bool {
    &&& h.resolver == raw.resolver
    &&& match raw.setup_error {
        Some(e) => is_failure(h, "setup-error:"@ + e@),
        None => if raw.samples@.len() == 0 {
            is_failure(h, "no-samples"@)
        } else {
            exists|c: CheckCounts| #[trigger] counted(c, raw.samples@) && is_judged(h, c, raw.samples@)
        },
    }
}

/// Whether a result says that no check was done.
pub open spec fn is_failure(h: ResolverHealth, reason: Seq<char>) -> bool {
    &&& h.status is Error
    &&& h.score == 0
    &&& h.latency == latency_summary(Seq::empty(), false)
    &&& h.timeout_ratio == (Share { part: 0, total: 1 })
    &&& h.checks == no_checks()
    &&& texts(h.reasons@) == seq![reason]
}

/// Whether a result is the one for the counts over some samples.
pub open spec fn is_judged(h: ResolverHealth, c: CheckCounts, v: Seq<ResolverCheckSample>) -> bool {
    let total = v.len() as int;
    let latency = latency_summary(latencies(v), c.checks.positive.total >= 20);
    &&& h.checks == c.checks
    &&& h.latency == latency
    &&& h.timeout_ratio == (Share { part: c.timeouts, total: total as usize })
    &&& (h.status, texts(h.reasons@)) == health_verdict(c, total, latency)
    &&& h.score == (if h.status is Healthy {
        score(c.checks, latency.p50_ms, c.timeouts as int, total)
    } else {
        0
    })
}

fn failure(resolver: SocketAddr, reason: String) -> (r: ResolverHealth)
    ensures
        r.resolver == resolver,
        is_failure(r, reason@),
{
    let mut reasons: Vec<String> = Vec::new();
    reasons.push(reason);
    assert(texts(reasons@) =~= seq![reason@]);
    let none: Vec<u128> = Vec::new();
    ResolverHealth {
        resolver,
        status: ResolverHealthStatus::Error,
        score: 0,
        latency: latency_stats(&none, false),
        timeout_ratio: Share { part: 0, total: 1 },
        checks: ResolverHealthChecks::default(),
        reasons,
    }
}

/// Judges a resolver by the samples of its check.
pub fn classify_health(raw: RawResolverHealth) -> (r: ResolverHealth)
    ensures
        is_health_of(r, raw),
        r.score <= 100,
{
    if let Some(e) = raw.setup_error {
        return failure(raw.resolver, concat("setup-error:", e.as_str()));
    }
    let total: usize = raw.samples.len();
    if total == 0 {
        return failure(raw.resolver, "no-samples".to_string());
    }
    let (c, ms) = count_samples(&raw.samples);
    let latency = latency_stats(&ms, c.checks.positive.total >= 20);
    let slow = match latency.p95_ms {
        Some(p95) => p95 > 1000,
        None => false,
    };
    proof {
        lemma_counts_are_scorable(c, raw.samples@);
    }
    let (status, reasons) = if c.errors == total {
        (ResolverHealthStatus::Error, one_reason("all-errors"))
    } else if c.hijacked {
        (ResolverHealthStatus::Bad, one_reason("nxdomain-hijack"))
    } else if c.polluted {
        (ResolverHealthStatus::Bad, one_reason("wildcard-pollution"))
    } else if 2 * c.timeouts as u128 > total as u128 {
        (ResolverHealthStatus::Bad, one_reason("timeout-ratio>50%"))
    } else if 10 * c.timeouts as u128 >= total as u128 {
        (ResolverHealthStatus::Warn, one_reason("timeout-ratio>=10%"))
    } else if slow {
        (ResolverHealthStatus::Warn, one_reason("p95>1000ms"))
    } else {
        let none: Vec<String> = Vec::new();
        assert(texts(none@) =~= Seq::empty());
        (ResolverHealthStatus::Healthy, none)
    };
    let score: u8 = if status == ResolverHealthStatus::Healthy {
        health_score(&c.checks, &latency, c.timeouts, total)
    } else {
        0
    };
    let r = ResolverHealth {
        resolver: raw.resolver,
        status,
        score,
        latency,
        timeout_ratio: Share { part: c.timeouts, total },
        checks: c.checks,
        reasons,
    };
    assert(counted(c, raw.samples@) && is_judged(r, c, raw.samples@));
    r
}

/// Whether a resolver should not be used.
pub open spec fn is_unusable(s: ResolverHealthStatus) -> bool {
    s is Bad || s is Error
}

/// Tests whether some resolver should not be used.
pub fn has_bad(results: &Vec<ResolverHealth>) -> (r: bool)
    ensures
        r == exists|i: int| 0 <= i < results@.len() && is_unusable((#[trigger] results@[i]).status),
{
    let mut i: usize = 0;
    while i < results.len()
        invariant
            i <= results@.len(),
            forall|j: int| 0 <= j < i ==> !is_unusable((#[trigger] results@[j]).status),
        decreases results.len() - i,
    {
        let s = results[i].status;
        if s == ResolverHealthStatus::Bad || s == ResolverHealthStatus::Error {
            assert(is_unusable(results@[i as int].status));
            return true;
        }
        i += 1;
    }
    false
}

proof fn lemma_tally_remove<A>(v: Seq<A>, p: spec_fn(A) -> bool, i: int)
    requires
        0 <= i < v.len(),
    ensures
        tally(v, p) == tally(v.remove(i), p) + (if p(v[i]) {
            1nat
        } else {
            0nat
        }),
    decreases v.len(),
{
    if i < v.len() - 1 {
        let w = v.drop_last();
        lemma_tally_remove(w, p, i);
        assert(v.remove(i).drop_last() =~= w.remove(i));
        assert(v.remove(i).last() == v.last());
    } else {
        assert(v.remove(i) =~= v.drop_last());
    }
}

/// Counting does not depend on the order.
proof fn lemma_tally_reordered<A>(v: Seq<A>, w: Seq<A>, p: spec_fn(A) -> bool)
    requires
        v.to_multiset() == w.to_multiset(),
    ensures
        tally(v, p) == tally(w, p),
    decreases v.len(),
{
    broadcast use vstd::seq_lib::group_to_multiset_ensures;

    assert(v.len() == v.to_multiset().len());
    assert(w.len() == w.to_multiset().len());
    if v.len() > 0 {
        let n = v.len() - 1;
        let x = v[n];
        assert(v.contains(x) <==> v.to_multiset().contains(x));
        assert(w.contains(x) <==> w.to_multiset().contains(x));
        assert(v.contains(v[n]));
        let i = choose|i: int| 0 <= i < w.len() && w[i] == x;
        assert(v.remove(n) =~= v.drop_last());
        assert(v.remove(n).to_multiset() =~= w.remove(i).to_multiset());
        lemma_tally_reordered(v.remove(n), w.remove(i), p);
        lemma_tally_remove(v, p, n);
        lemma_tally_remove(w, p, i);
    }
}

/// Of sorted values, those at or below the one at a place are at least those up to it; and
/// those at or below a lesser value all stand before it.
proof fn lemma_tally_sorted(s: Seq<u128>, k: int, y: u128)
    requires
        0 <= k < s.len(),
        forall|i: int, j: int| 0 <= i <= j < s.len() ==> s[i] <= s[j],
    ensures
        s[k] <= y ==> tally(s, |x: u128| x <= y) >= k + 1,
        y < s[k] ==> tally(s, |x: u128| x <= y) <= k,
    decreases s.len(),
{
    let p = |x: u128| x <= y;
    let w = s.drop_last();
    if k < s.len() - 1 {
        lemma_tally_sorted(w, k, y);
    } else if s[k] <= y {
        if k > 0 {
            lemma_tally_sorted(w, k - 1, y);
        }
    } else {
        lemma_tally_bound(w, p);
    }
}

/// The number of values at or below a limit.
pub open spec fn at_or_below(v: Seq<u128>, limit: u128) -> nat {
    tally(v, |x: u128| x <= limit)
}

/// How the latencies of a check are summed up: the maximum is the largest of them; the
/// median is the least of them that at least half are at or below; the 95th percentile is
/// there if it is asked for, and is one of them between the median and the maximum. Their
/// order does not matter.
pub proof fn law_latencies_are_summed_up(v: Seq<u128>, w: Seq<u128>, with_p95: bool)
    requires
        v.len() > 0,
        v.to_multiset() == w.to_multiset(),
    ensures
        latency_summary(w, with_p95) == latency_summary(v, with_p95),
        ({
            let r = latency_summary(v, with_p95);
            let max = r.max_ms->0;
            let m = r.p50_ms->0;
            let p = r.p95_ms->0;
            &&& r.max_ms is Some && v.contains(max)
            &&& forall|i: int| 0 <= i < v.len() ==> #[trigger] v[i] <= max
            &&& r.p50_ms is Some && v.contains(m)
            &&& 2 * at_or_below(v, m) >= v.len()
            &&& forall|y: u128| y < m ==> 2 * (#[trigger] at_or_below(v, y)) < v.len()
            &&& r.p95_ms is Some == with_p95
            &&& with_p95 ==> v.contains(p) && m <= p <= max
        }),
{
    broadcast use vstd::seq_lib::group_to_multiset_ensures;

    let le = item_order::<u128>();
    <u128 as Ordered>::lemma_total();
    assert(total_ordering(le));
    let s = sorted_items(v);
    v.lemma_sort_by_ensures(le);
    w.lemma_sort_by_ensures(le);
    vstd::seq_lib::lemma_sorted_unique(s, sorted_items(w), le);
    assert(s.len() == s.to_multiset().len());
    assert(v.len() == v.to_multiset().len());
    assert(w.len() == w.to_multiset().len());
    assert forall|x: u128| s.contains(x) == #[trigger] v.contains(x) by {
        assert(s.contains(x) <==> s.to_multiset().contains(x));
        assert(v.contains(x) <==> v.to_multiset().contains(x));
    }
    assert forall|i: int, j: int| 0 <= i <= j < s.len() implies s[i] <= s[j] by {
        if i < j {
            assert(le(s[i], s[j]));
        }
    }
    let n = s.len() as int;
    let k = (n * 50 + 99) / 100 - 1;
    let l = (n * 95 + 99) / 100 - 1;
    let m = s[k];
    assert(0 <= k <= l < n && 2 * k < n <= 2 * (k + 1));
    assert(s.contains(s[k]) && s.contains(s[l]) && s.contains(s[n - 1]));
    assert forall|i: int| 0 <= i < v.len() implies #[trigger] v[i] <= s[n - 1] by {
        assert(v.contains(v[i]));
        let j = choose|j: int| 0 <= j < s.len() && s[j] == v[i];
        assert(s[j] <= s[n - 1]);
    }
    lemma_tally_sorted(s, k, m);
    lemma_tally_reordered(v, s, |x: u128| x <= m);
    assert forall|y: u128| y < m implies 2 * (#[trigger] at_or_below(v, y)) < v.len() by {
        lemma_tally_sorted(s, k, y);
        lemma_tally_reordered(v, s, |x: u128| x <= y);
    }
}

/// A resolver that answers for a name under `.invalid` is never `Healthy` or `Warn`.
pub proof fn law_hijackers_are_unusable(
    c: CheckCounts,
    total: int,
    latency: ResolverLatencyStats,
)
    requires
        c.hijacked || c.polluted || 2 * c.timeouts > total,
    ensures
        is_unusable(health_verdict(c, total, latency).0),
{
}

proof fn lemma_no_penalty(factor: int, rest: int)
    ensures
        factor * 0 * rest == 0,
        0 * rest == 0,
{
    assert(factor * 0 * rest == 0) by (nonlinear_arith);
}

/// A check without failures, timeouts and slowness scores a hundred.
pub proof fn law_flawless_scores_a_hundred(
    c: ResolverHealthChecks,
    p50: Option<u128>,
    total: int,
)
    requires
        total > 0,
        slowness(p50) == 0,
        c.positive.passed == c.positive.total,
        c.nxdomain.passed == c.nxdomain.total,
        c.wildcard_pollution.passed == c.wildcard_pollution.total,
    ensures
        score(c, p50, 0, total) == 100,
{
    let (t, p, n, w) = (
        divisor(total),
        divisor(c.positive.total as int),
        divisor(c.nxdomain.total as int),
        divisor(c.wildcard_pollution.total as int),
    );
    lemma_positive_product(t, p, n, w);
    let all = t * p * n * w;
    lemma_no_penalty(5000, p * n * w);
    lemma_no_penalty(1500, t * n * w);
    lemma_no_penalty(1500, t * p * w);
    lemma_no_penalty(1000, t * p * n);
    lemma_no_penalty(1, all);
    assert(score_parts(c, p50, 0, total) == 5000 * all);
    let d = 50 * all;
    assert((2 * (100 * d) + d) / (2 * d) == 100) by (nonlinear_arith)
        requires
            d > 0,
    ;
}

/// Whether some sample has a property.
pub open spec fn some_sample(
    v: Seq<ResolverCheckSample>,
    p: spec_fn(ResolverCheckSample) -> bool,
) -> bool {
    exists|i: int| 0 <= i < v.len() && p(#[trigger] v[i])
}

proof fn lemma_some_sample(v: Seq<ResolverCheckSample>, p: spec_fn(ResolverCheckSample) -> bool)
    ensures
        tally(v, p) > 0 <==> some_sample(v, p),
        tally(v, p) == v.len() <==> forall|i: int| 0 <= i < v.len() ==> p(#[trigger] v[i]),
{
    lemma_tally_some(v, p);
    if exists|x: ResolverCheckSample| v.contains(x) && p(x) {
        let x = choose|x: ResolverCheckSample| v.contains(x) && p(x);
        let i = choose|i: int| 0 <= i < v.len() && v[i] == x;
        assert(p(v[i]));
    }
    if some_sample(v, p) {
        let i = choose|i: int| 0 <= i < v.len() && p(#[trigger] v[i]);
        assert(v.contains(v[i]) && p(v[i]));
    }
    if forall|x: ResolverCheckSample| v.contains(x) ==> p(x) {
        assert forall|i: int| 0 <= i < v.len() implies p(#[trigger] v[i]) by {
            assert(v.contains(v[i]));
        }
    }
}

/// What the samples of a check make of a resolver. It is an error if every query failed. It is
/// bad if it answers for a name that cannot exist, or if more than half of the queries timed
/// out. It is to be watched if a tenth of them did or if one in twenty takes more than a
/// second, and healthy otherwise; only then does it have a score and no reason.
pub proof fn law_samples_make_the_verdict(h: ResolverHealth, raw: RawResolverHealth)
    requires
        is_health_of(h, raw),
        raw.setup_error is None,
        raw.samples@.len() > 0,
    ensures
        ({
            let v = raw.samples@;
            let timeouts = tally(v, |s: ResolverCheckSample| s.outcome is Timeout);
            let failed = forall|i: int| 0 <= i < v.len() ==> (#[trigger] v[i]).outcome is Error;
            let lies = some_sample(
                v,
                |s: ResolverCheckSample| !(s.kind is Positive) && s.outcome is Answer,
            );
            let rewrites = some_sample(
                v,
                |s: ResolverCheckSample| s.kind is NxdomainInvalid && s.outcome is Answer,
            );
            let slow = h.latency.p95_ms matches Some(ms) && ms > 1000;
            &&& h.status is Error <==> failed
            &&& h.status is Bad <==> !failed && (lies || timeouts + timeouts > v.len())
            &&& h.status is Warn <==> !failed && !lies && timeouts + timeouts <= v.len() && (10
                * timeouts >= v.len() || slow)
            &&& h.status is Healthy <==> texts(h.reasons@).len() == 0
            &&& !(h.status is Healthy) ==> h.score == 0 && texts(h.reasons@).len() == 1
            &&& !failed && rewrites ==> texts(h.reasons@) == seq!["nxdomain-hijack"@]
            &&& !failed && lies && !rewrites ==> texts(h.reasons@) == seq!["wildcard-pollution"@]
            &&& h.timeout_ratio.part == timeouts && h.timeout_ratio.total == v.len()
            &&& h.checks.positive.total + h.checks.nxdomain.total
                + h.checks.wildcard_pollution.total == v.len()
            &&& h.resolver == raw.resolver
        }),
{
    let v = raw.samples@;
    let c = choose|c: CheckCounts| #[trigger] counted(c, v) && is_judged(h, c, v);
    lemma_some_sample(v, |s: ResolverCheckSample| s.outcome is Error);
    lemma_some_sample(
        v,
        |s: ResolverCheckSample| s.kind is NxdomainInvalid && s.outcome is Answer,
    );
    let p = |s: ResolverCheckSample|
        (s.kind is NxdomainRandom || s.kind is WildcardPollution) && s.outcome is Answer;
    let q = |s: ResolverCheckSample| !(s.kind is Positive) && s.outcome is Answer;
    let r = |s: ResolverCheckSample| s.kind is NxdomainInvalid && s.outcome is Answer;
    lemma_some_sample(v, p);
    if some_sample(v, q) {
        let i = choose|i: int| 0 <= i < v.len() && q(#[trigger] v[i]);
        assert(p(v[i]) || r(v[i]));
    }
    if some_sample(v, p) {
        let i = choose|i: int| 0 <= i < v.len() && p(#[trigger] v[i]);
        assert(q(v[i]));
    }
    if some_sample(v, r) {
        let i = choose|i: int| 0 <= i < v.len() && r(#[trigger] v[i]);
        assert(q(v[i]));
    }
    lemma_kinds_sum_up(v);
    assert(raw.samples.len() == v.len());
}

proof fn lemma_kinds_sum_up(v: Seq<ResolverCheckSample>)
    ensures
        tally(v, |s: ResolverCheckSample| s.kind is Positive) + tally(
            v,
            |s: ResolverCheckSample| is_nxdomain_check(s),
        ) + tally(v, |s: ResolverCheckSample| s.kind is WildcardPollution) == v.len(),
    decreases v.len(),
{
    if v.len() > 0 {
        lemma_kinds_sum_up(v.drop_last());
    }
}

/// A check that could not be done or brought nothing is an error that says why.
pub proof fn law_missing_checks_are_errors(h: ResolverHealth, raw: RawResolverHealth)
    requires
        is_health_of(h, raw),
        raw.setup_error is Some || raw.samples@.len() == 0,
    ensures
        h.status is Error,
        h.score == 0,
        is_unusable(h.status),
        texts(h.reasons@).len() == 1,
        raw.setup_error matches Some(e) ==> texts(h.reasons@)[0] == "setup-error:"@ + e@,
{
}

/// A query that brought an answer counts as one whatever else it brought, and otherwise as
/// NXDOMAIN, a timeout or an error, in this order.
pub proof fn law_outcomes_of_checks(a: AnswersView)
    ensures
        check_outcome(a) is Answer <==> a.any_answer,
        check_outcome(a) is Nxdomain <==> a.all_nxdomain && !a.any_answer,
        check_outcome(a) is Timeout <==> a.any_timeout && !a.all_nxdomain && !a.any_answer,
        check_outcome(a) is Error <==> !a.any_timeout && !a.all_nxdomain && !a.any_answer,
{
}

/// How much each failing costs at most, whatever the number of checks: all timeouts cost the
/// whole score, all failed positive checks thirty, as all failed NXDOMAIN checks do, all
/// failed pollution checks twenty, and a median of more than 1250 milliseconds twenty.
pub proof fn law_each_failing_has_its_price(c: ResolverHealthChecks, total: int)
    requires
        total > 0,
        c.positive.total > 0,
        c.nxdomain.total > 0,
        c.wildcard_pollution.total > 0,
        c.positive.passed == c.positive.total,
        c.nxdomain.passed == c.nxdomain.total,
        c.wildcard_pollution.passed == c.wildcard_pollution.total,
    ensures
        score(c, None, total, total) == 0,
        score(
            ResolverHealthChecks {
                positive: ResolverCheckSummary { passed: 0, ..c.positive },
                ..c
            },
            None,
            0,
            total,
        ) == 70,
        score(
            ResolverHealthChecks {
                nxdomain: ResolverCheckSummary { passed: 0, ..c.nxdomain },
                ..c
            },
            None,
            0,
            total,
        ) == 70,
        score(
            ResolverHealthChecks {
                wildcard_pollution: ResolverCheckSummary { passed: 0, ..c.wildcard_pollution },
                ..c
            },
            None,
            0,
            total,
        ) == 80,
        score(c, Some(1250), 0, total) == 80,
        score(c, Some(250), 0, total) == 100,
        score(c, Some(300), 0, total) == 99,
        forall|ms: u128| ms >= 1250 ==> #[trigger] score(c, Some(ms), 0, total) == 80,
{
    let (t, p, n, w) = (
        total,
        c.positive.total as int,
        c.nxdomain.total as int,
        c.wildcard_pollution.total as int,
    );
    lemma_positive_product(t, p, n, w);
    let all = t * p * n * w;
    lemma_no_penalty(5000, p * n * w);
    lemma_no_penalty(1500, t * n * w);
    lemma_no_penalty(1500, t * p * w);
    lemma_no_penalty(1000, t * p * n);
    lemma_no_penalty(1, all);
    assert(5000 * t * (p * n * w) == 5000 * all) by (nonlinear_arith)
        requires
            all == t * p * n * w,
    ;
    assert(1500 * p * (t * n * w) == 1500 * all) by (nonlinear_arith)
        requires
            all == t * p * n * w,
    ;
    assert(1500 * n * (t * p * w) == 1500 * all) by (nonlinear_arith)
        requires
            all == t * p * n * w,
    ;
    assert(1000 * w * (t * p * n) == 1000 * all) by (nonlinear_arith)
        requires
            all == t * p * n * w,
    ;
    lemma_points(all, 70);
    lemma_points(all, 80);
    lemma_points(all, 99);
    lemma_points(all, 100);
    assert(score_base(c, total) == 50 * all);
    let c1 = ResolverHealthChecks {
        positive: ResolverCheckSummary { passed: 0, ..c.positive },
        ..c
    };
    let c2 = ResolverHealthChecks {
        nxdomain: ResolverCheckSummary { passed: 0, ..c.nxdomain },
        ..c
    };
    let c3 = ResolverHealthChecks {
        wildcard_pollution: ResolverCheckSummary { passed: 0, ..c.wildcard_pollution },
        ..c
    };
    assert(score_parts(c, None, total, total) == 0);
    assert(score_parts(c1, None, 0, total) == 3500 * all);
    assert(score_parts(c2, None, 0, total) == 3500 * all);
    assert(score_parts(c3, None, 0, total) == 4000 * all);
    assert(score_parts(c, Some(1250), 0, total) == 4000 * all);
    assert(score_parts(c, Some(250), 0, total) == 5000 * all);
    assert(score_parts(c, Some(300), 0, total) == 4950 * all);
    assert forall|ms: u128| ms >= 1250 implies #[trigger] score(c, Some(ms), 0, total) == 80 by {
        assert(score_parts(c, Some(ms), 0, total) == 4000 * all);
    }
}

proof fn lemma_points(all: int, k: int)
    requires
        all > 0,
        k > 0,
    ensures
        (2 * (50 * k * all) + 50 * all) / (2 * (50 * all)) == k,
        50 * k * all > 0,
{
    let d = 50 * all;
    assert(50 * k * all == k * d && k * d > 0) by (nonlinear_arith)
        requires
            d == 50 * all,
            d > 0,
            k > 0,
    ;
    assert((2 * (k * d) + d) / (2 * d) == k) by (nonlinear_arith)
        requires
            d > 0,
    ;
}

/// More timeouts never raise a score, and neither do fewer passed checks nor a larger median.
pub proof fn law_scores_fall_with_failings(
    c: ResolverHealthChecks,
    d: ResolverHealthChecks,
    m1: u128,
    m2: u128,
    t1: int,
    t2: int,
    total: int,
)
    requires
        total > 0,
        0 <= t1 <= t2,
        m1 <= m2,
        c.positive.total == d.positive.total,
        c.nxdomain.total == d.nxdomain.total,
        c.wildcard_pollution.total == d.wildcard_pollution.total,
        c.positive.passed >= d.positive.passed,
        c.nxdomain.passed >= d.nxdomain.passed,
        c.wildcard_pollution.passed >= d.wildcard_pollution.passed,
    ensures
        score(d, Some(m2), t2, total) <= score(c, Some(m1), t1, total),
{
    let (t, p, n, w) = (
        divisor(total),
        divisor(c.positive.total as int),
        divisor(c.nxdomain.total as int),
        divisor(c.wildcard_pollution.total as int),
    );
    lemma_positive_product(t, p, n, w);
    assert(p * n * w > 0 && t * n * w > 0 && t * p * w > 0 && t * p * n > 0) by (nonlinear_arith)
        requires
            t > 0,
            p > 0,
            n > 0,
            w > 0,
    ;
    lemma_price_grows(5000, t1, t2, p * n * w);
    lemma_price_grows(
        1500,
        c.positive.total - c.positive.passed,
        d.positive.total - d.positive.passed,
        t * n * w,
    );
    lemma_price_grows(
        1500,
        c.nxdomain.total - c.nxdomain.passed,
        d.nxdomain.total - d.nxdomain.passed,
        t * p * w,
    );
    lemma_price_grows(
        1000,
        c.wildcard_pollution.total - c.wildcard_pollution.passed,
        d.wildcard_pollution.total - d.wildcard_pollution.passed,
        t * p * n,
    );
    lemma_price_grows(1, slowness(Some(m1)), slowness(Some(m2)), t * p * n * w);
    let x = score_parts(c, Some(m1), t1, total);
    let y = score_parts(d, Some(m2), t2, total);
    assert(y <= x);
    let base = score_base(c, total);
    assert(base > 0);
    if y > 0 {
        assert((2 * y + base) / (2 * base) <= (2 * x + base) / (2 * base)) by (nonlinear_arith)
            requires
                y <= x,
                base > 0,
        ;
    } else if x > 0 {
        assert((2 * x + base) / (2 * base) >= 0) by (nonlinear_arith)
            requires
                x > 0,
                base > 0,
        ;
    }
}

proof fn lemma_price_grows(factor: int, a: int, b: int, rest: int)
    requires
        factor > 0,
        a <= b,
        rest > 0,
    ensures
        factor * a * rest <= factor * b * rest,
        factor == 1 ==> a * rest <= b * rest,
{
    assert(factor * a * rest <= factor * b * rest) by (nonlinear_arith)
        requires
            factor > 0,
            a <= b,
            rest > 0,
    ;
}

} // verus!

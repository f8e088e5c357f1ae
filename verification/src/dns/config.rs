//! Configuration of DNS validation.

use vstd::prelude::*;

use crate::ip::{IpAddr, SocketAddr};

verus! {

/// A threshold, as a fraction.
#[derive(Debug, Clone, Copy, PartialEq, Eq, Structural)]
pub struct Ratio {
    pub num: u32,
    pub den: u32,
}

impl Ratio {
    /// Whether the fraction is above zero and at most one.
    pub open spec fn proper(self) -> bool {
        0 < self.num <= self.den
    }

    /// Whether the fraction is below one.
    pub open spec fn below_one(self) -> bool {
        self.num < self.den
    }

    /// Whether `part / total` is at least the fraction.
    pub open spec fn reached_by(self, part: nat, total: nat) -> bool {
        part * self.den >= self.num * total
    }

    /// Whether `part / total` is above the fraction.
    pub open spec fn exceeded_by(self, part: nat, total: nat) -> bool {
        part * self.den > self.num * total
    }

    /// Tests whether `part / total` is at least the fraction.
    pub fn is_reached_by(self, part: usize, total: usize) -> (r: bool)
        ensures
            r == self.reached_by(part as nat, total as nat),
    {
        proof {
            lemma_product_fits(part, self.den);
            lemma_product_fits(total, self.num);
        }
        part as u128 * self.den as u128 >= self.num as u128 * total as u128
    }

    /// Tests whether `part / total` is above the fraction.
    pub fn is_exceeded_by(self, part: usize, total: usize) -> (r: bool)
        ensures
            r == self.exceeded_by(part as nat, total as nat),
    {
        proof {
            lemma_product_fits(part, self.den);
            lemma_product_fits(total, self.num);
        }
        part as u128 * self.den as u128 > self.num as u128 * total as u128
    }
}

proof fn lemma_product_fits(a: usize, b: u32)
    ensures
        0 <= a * b <= u128::MAX,
        a * b == b * a,
{
    assert(0 <= a * b <= 0xffff_ffff_ffff_ffff * 0xffff_ffff) by (nonlinear_arith)
        requires
            0 <= a <= 0xffff_ffff_ffff_ffff,
            0 <= b <= 0xffff_ffff,
    ;
    assert(a * b == b * a) by (nonlinear_arith);
}

/// How hosts are validated.
#[derive(Debug, Clone)]
pub struct DnsConfig {
    pub resolvers: Vec<SocketAddr>,
    pub concurrency: usize,
    /// Limit of one query, in seconds.
    pub timeout_secs: u64,
    pub retries: u8,
    /// Random probes per zone and round.
    pub wildcard_tests: usize,
    pub wildcard_filter: bool,
    /// Resolvers asked per host. One disables the cross-check.
    pub consistency_checks: usize,
    /// Zones probed at a time; zero means a quarter of `concurrency`, but at least 16.
    pub probe_concurrency: usize,
    /// Whether hosts below a dead zone are left unasked.
    pub skip_dead_zones: bool,
    /// Timeout ratio at or above which a zone is flaky.
    pub flaky_threshold: Ratio,
    /// Hosts of a zone seen before the ratio counts; zero disables the rule.
    pub flaky_min_samples: usize,
    /// Whether a timeout below a wildcard is taken for the wildcard.
    pub infer_wildcard_on_timeout: bool,
    /// Timeout ratio above which a resolver is dropped; one or more disables the rule.
    pub resolver_unhealthy_threshold: Ratio,
    /// Queries to a resolver before the ratio counts.
    pub resolver_min_samples: usize,
    /// Seconds between two rounds of hijack probes; zero disables them.
    pub hijack_probe_interval_secs: u64,
}

/// The IPv4 address of four octets.
pub open spec fn dotted(a: u8, b: u8, c: u8, d: u8) -> IpAddr {
    IpAddr::V4((a * 16777216 + b * 65536 + c * 256 + d) as u32)
}

/// The public resolvers that are used unless others are given.
pub open spec fn public_resolvers() -> Seq<SocketAddr> {
    seq![
        SocketAddr { ip: dotted(1, 1, 1, 1), port: 53, scope: 0 },
        SocketAddr { ip: dotted(1, 0, 0, 1), port: 53, scope: 0 },
        SocketAddr { ip: dotted(8, 8, 8, 8), port: 53, scope: 0 },
        SocketAddr { ip: dotted(8, 8, 4, 4), port: 53, scope: 0 },
        SocketAddr { ip: dotted(9, 9, 9, 9), port: 53, scope: 0 },
        SocketAddr { ip: dotted(149, 112, 112, 112), port: 53, scope: 0 },
    ]
}

fn resolver(a: u8, b: u8, c: u8, d: u8) -> (r: SocketAddr)
    ensures
        r == (SocketAddr { ip: dotted(a, b, c, d), port: 53, scope: 0 }),
{
    let ip: u32 = a as u32 * 16777216 + b as u32 * 65536 + c as u32 * 256 + d as u32;
    SocketAddr::new(IpAddr::V4(ip), 53)
}

fn default_resolvers() -> (r: Vec<SocketAddr>)
    ensures
        r@ == public_resolvers(),
{
    let mut r: Vec<SocketAddr> = Vec::new();
    r.push(resolver(1, 1, 1, 1));
    r.push(resolver(1, 0, 0, 1));
    r.push(resolver(8, 8, 8, 8));
    r.push(resolver(8, 8, 4, 4));
    r.push(resolver(9, 9, 9, 9));
    r.push(resolver(149, 112, 112, 112));
    assert(r@ =~= public_resolvers());
    r
}

impl Default for DnsConfig {
    fn default() -> (r: Self)
        ensures
            r.resolvers@ == public_resolvers(),
            r == (DnsConfig {
                resolvers: r.resolvers,
                concurrency: 50,
                timeout_secs: 5,
                retries: 2,
                wildcard_tests: 6,
                wildcard_filter: true,
                consistency_checks: 2,
                probe_concurrency: 25,
                skip_dead_zones: true,
                flaky_threshold: Ratio { num: 8, den: 10 },
                flaky_min_samples: 10,
                infer_wildcard_on_timeout: true,
                resolver_unhealthy_threshold: Ratio { num: 5, den: 10 },
                resolver_min_samples: 20,
                hijack_probe_interval_secs: 30,
            }),
    {
        DnsConfig {
            resolvers: default_resolvers(),
            concurrency: 50,
            timeout_secs: 5,
            retries: 2,
            wildcard_tests: 6,
            wildcard_filter: true,
            consistency_checks: 2,
            probe_concurrency: 25,
            skip_dead_zones: true,
            flaky_threshold: Ratio { num: 8, den: 10 },
            flaky_min_samples: 10,
            infer_wildcard_on_timeout: true,
            resolver_unhealthy_threshold: Ratio { num: 5, den: 10 },
            resolver_min_samples: 20,
            hijack_probe_interval_secs: 30,
        }
    }
}

impl DnsConfig {
    /// Zones probed at a time.
    pub open spec fn probes_at_a_time(self) -> int {
        if self.probe_concurrency != 0 {
            self.probe_concurrency as int
        } else if self.concurrency / 4 >= 16 {
            self.concurrency as int / 4
        } else {
            16
        }
    }

    /// Whether zones can be flagged as flaky.
    pub open spec fn flaky_rule(self) -> bool {
        self.flaky_min_samples > 0 && self.flaky_threshold.proper()
    }

    /// Zones probed at a time. It is never zero.
    pub fn effective_probe_concurrency(&self) -> (r: usize)
        ensures
            r == self.probes_at_a_time(),
            r > 0,
    {
        if self.probe_concurrency != 0 {
            self.probe_concurrency
        } else if self.concurrency / 4 >= 16 {
            self.concurrency / 4
        } else {
            16
        }
    }

    /// Whether resolvers are probed for rewritten answers during a run: there is more than
    /// one of them, and the probes are not disabled.
    pub open spec fn hijack_rule(self) -> bool {
        self.hijack_probe_interval_secs > 0 && self.resolvers@.len() > 1
    }

    /// Tests whether resolvers are probed for rewritten answers during a run.
    pub fn hijack_probes_enabled(&self) -> (r: bool)
        ensures
            r == self.hijack_rule(),
    {
        self.hijack_probe_interval_secs > 0 && self.resolvers.len() > 1
    }

    /// Tests whether zones can be flagged as flaky.
    pub fn flaky_enabled(&self) -> (r: bool)
        ensures
            r == self.flaky_rule(),
    {
        self.flaky_min_samples > 0 && self.flaky_threshold.num > 0 && self.flaky_threshold.num
            <= self.flaky_threshold.den
    }
}

/// Zones are probed as many at a time as is asked for, or else a quarter of the hosts that
/// are asked for at a time, but no fewer than sixteen.
pub proof fn law_probes_at_a_time(c: DnsConfig)
    ensures
        c.probes_at_a_time() >= 1,
        c.probe_concurrency > 0 ==> c.probes_at_a_time() == c.probe_concurrency,
        c.probe_concurrency == 0 ==> c.probes_at_a_time() >= 16 && (c.probes_at_a_time() == 16 || (
        4 * c.probes_at_a_time() <= c.concurrency < 4 * c.probes_at_a_time() + 4)),
        c.probe_concurrency == 0 && c.concurrency >= 68 ==> c.probes_at_a_time() > 16,
{
}

/// A share of none reaches no threshold above zero, a share of all reaches every threshold up
/// to one and exceeds every one below, and a share that exceeds a threshold reaches it.
pub proof fn law_shares_reach_thresholds(r: Ratio, part: nat, total: nat)
    requires
        total > 0,
        r.den > 0,
    ensures
        r.num > 0 ==> !r.reached_by(0, total),
        r.num <= r.den ==> r.reached_by(total, total),
        r.num < r.den ==> r.exceeded_by(total, total),
        r.exceeded_by(part, total) ==> r.reached_by(part, total),
        r.reached_by(r.num as nat, r.den as nat) && !r.exceeded_by(r.num as nat, r.den as nat),
        r.reached_by(part, total) ==> r.reached_by(part + 1, total),
        r.reached_by(part, total) ==> r.exceeded_by(part + 1, total),
{
    let (n, d) = (r.num as int, r.den as int);
    let (p, t) = (part as int, total as int);
    assert(n > 0 ==> n * t > 0) by (nonlinear_arith)
        requires
            t > 0,
    ;
    assert(n <= d ==> t * d >= n * t) by (nonlinear_arith)
        requires
            t > 0,
    ;
    assert(n < d ==> t * d > n * t) by (nonlinear_arith)
        requires
            t > 0,
    ;
    assert((p + 1) * d == p * d + d) by (nonlinear_arith);
    assert(0 * d == 0);
}

} // verus!

//! Counters and statistics of a validation run.

use vstd::prelude::*;

use crate::lists::{lemma_tally_bound, lemma_tally_none, tally};
use crate::model::{views, Asset, AssetView, DnsStatus, WildcardReason};

verus! {

/// Statistics of a validation run.
#[derive(Debug, Clone, Copy)]
pub struct DnsStats {
    pub input_assets: usize,
    pub dns_eligible_assets: usize,
    pub elapsed_ms: u128,
    pub probe_queries: usize,
    pub host_queries: usize,
    pub signature_parents: SignatureParentStats,
    pub statuses: DnsStatusStats,
    pub wildcard_decisions: WildcardDecisionStats,
    pub resolver_disagreement: ResolverDisagreementStats,
    pub short_circuits: DnsShortCircuitStats,
}

/// States of the probed zones.
#[derive(Debug, Clone, Copy)]
pub struct SignatureParentStats {
    pub total: usize,
    pub wildcard: usize,
    pub clean: usize,
    pub dead: usize,
}

/// Assets by DNS status.
#[derive(Debug, Clone, Copy)]
pub struct DnsStatusStats {
    pub unknown: usize,
    pub resolved: usize,
    pub unresolved: usize,
    pub wildcard_ip: usize,
    pub wildcard_cname: usize,
    pub mixed_wildcard: usize,
    pub shaky: usize,
    pub timeout: usize,
    pub error: usize,
}

/// Wildcard verdicts by reason.
#[derive(Debug, Clone, Copy)]
pub struct WildcardDecisionStats {
    pub ip_overlap: usize,
    pub cname_match: usize,
    pub timeout_inferred: usize,
}

/// Hosts on which resolvers differed, by how they differed.
#[derive(Debug, Clone, Copy)]
pub struct ResolverDisagreementStats {
    pub answer_vs_nxdomain: usize,
    pub answer_vs_timeout: usize,
    pub answer_vs_error: usize,
    pub distinct_ip_sets: usize,
    pub distinct_cname_sets: usize,
}

/// Hosts that were not asked, by why.
#[derive(Debug, Clone, Copy)]
pub struct DnsShortCircuitStats {
    pub dead_zone: usize,
    pub flaky_zone: usize,
}

impl Default for SignatureParentStats {
    fn default() -> (r: Self)
        ensures
            r == (SignatureParentStats { total: 0, wildcard: 0, clean: 0, dead: 0 }),
    {
        SignatureParentStats { total: 0, wildcard: 0, clean: 0, dead: 0 }
    }
}

impl Default for DnsStatusStats {
    fn default() -> (r: Self)
        ensures
            forall|s: DnsStatus| #[trigger] r.count(s) == 0,
    {
        DnsStatusStats {
            unknown: 0,
            resolved: 0,
            unresolved: 0,
            wildcard_ip: 0,
            wildcard_cname: 0,
            mixed_wildcard: 0,
            shaky: 0,
            timeout: 0,
            error: 0,
        }
    }
}

impl Default for WildcardDecisionStats {
    fn default() -> (r: Self)
        ensures
            forall|s: WildcardReason| #[trigger] r.count(s) == 0,
    {
        WildcardDecisionStats { ip_overlap: 0, cname_match: 0, timeout_inferred: 0 }
    }
}

impl Default for ResolverDisagreementStats {
    fn default() -> (r: Self)
        ensures
            r == (ResolverDisagreementStats {
                answer_vs_nxdomain: 0,
                answer_vs_timeout: 0,
                answer_vs_error: 0,
                distinct_ip_sets: 0,
                distinct_cname_sets: 0,
            }),
    {
        ResolverDisagreementStats {
            answer_vs_nxdomain: 0,
            answer_vs_timeout: 0,
            answer_vs_error: 0,
            distinct_ip_sets: 0,
            distinct_cname_sets: 0,
        }
    }
}

impl Default for DnsShortCircuitStats {
    fn default() -> (r: Self)
        ensures
            r == (DnsShortCircuitStats { dead_zone: 0, flaky_zone: 0 }),
    {
        DnsShortCircuitStats { dead_zone: 0, flaky_zone: 0 }
    }
}

impl Default for DnsStats {
    fn default() -> (r: Self)
        ensures
            r.input_assets == 0,
            r.dns_eligible_assets == 0,
            r.elapsed_ms == 0,
            r.probe_queries == 0,
            r.host_queries == 0,
            r.signature_parents == (SignatureParentStats { total: 0, wildcard: 0, clean: 0, dead: 0 }),
            forall|s: DnsStatus| #[trigger] r.statuses.count(s) == 0,
            forall|s: WildcardReason| #[trigger] r.wildcard_decisions.count(s) == 0,
            r.resolver_disagreement == (ResolverDisagreementStats {
                answer_vs_nxdomain: 0,
                answer_vs_timeout: 0,
                answer_vs_error: 0,
                distinct_ip_sets: 0,
                distinct_cname_sets: 0,
            }),
            r.short_circuits == (DnsShortCircuitStats { dead_zone: 0, flaky_zone: 0 }),
    {
        DnsStats {
            input_assets: 0,
            dns_eligible_assets: 0,
            elapsed_ms: 0,
            probe_queries: 0,
            host_queries: 0,
            signature_parents: SignatureParentStats::default(),
            statuses: DnsStatusStats::default(),
            wildcard_decisions: WildcardDecisionStats::default(),
            resolver_disagreement: ResolverDisagreementStats::default(),
            short_circuits: DnsShortCircuitStats::default(),
        }
    }
}

impl DnsStatusStats {
    /// The count of one status.
    pub open spec fn count(self, s: DnsStatus) -> usize {
        match s {
            DnsStatus::Unknown => self.unknown,
            DnsStatus::Resolved => self.resolved,
            DnsStatus::Unresolved => self.unresolved,
            DnsStatus::WildcardIp => self.wildcard_ip,
            DnsStatus::WildcardCname => self.wildcard_cname,
            DnsStatus::MixedWildcard => self.mixed_wildcard,
            DnsStatus::Shaky => self.shaky,
            DnsStatus::Timeout => self.timeout,
            DnsStatus::Error => self.error,
        }
    }

    /// The sum of all counts.
    pub open spec fn sum(self) -> int {
        self.unknown + self.resolved + self.unresolved + self.wildcard_ip + self.wildcard_cname
            + self.mixed_wildcard + self.shaky + self.timeout + self.error
    }
}

impl WildcardDecisionStats {
    /// The count of one reason.
    pub open spec fn count(self, reason: WildcardReason) -> usize {
        match reason {
            WildcardReason::IpOverlap => self.ip_overlap,
            WildcardReason::CnameMatch => self.cname_match,
            WildcardReason::TimeoutInferred => self.timeout_inferred,
        }
    }
}

/// Counts one more asset with a status.
pub fn add_status_stat(stats: &mut DnsStatusStats, status: DnsStatus)
    requires
        old(stats).count(status) < usize::MAX,
    ensures
        final(stats).count(status) == old(stats).count(status) + 1,
        forall|s: DnsStatus| s != status ==> #[trigger] final(stats).count(s) == old(stats).count(s),
        final(stats).sum() == old(stats).sum() + 1,
{
    match status {
        DnsStatus::Unknown => stats.unknown += 1,
        DnsStatus::Resolved => stats.resolved += 1,
        DnsStatus::Unresolved => stats.unresolved += 1,
        DnsStatus::WildcardIp => stats.wildcard_ip += 1,
        DnsStatus::WildcardCname => stats.wildcard_cname += 1,
        DnsStatus::MixedWildcard => stats.mixed_wildcard += 1,
        DnsStatus::Shaky => stats.shaky += 1,
        DnsStatus::Timeout => stats.timeout += 1,
        DnsStatus::Error => stats.error += 1,
    }
}

/// Counts one more wildcard verdict with a reason.
pub fn add_wildcard_reason_stat(stats: &mut WildcardDecisionStats, reason: WildcardReason)
    requires
        old(stats).count(reason) < usize::MAX,
    ensures
        final(stats).count(reason) == old(stats).count(reason) + 1,
        forall|s: WildcardReason|
            s != reason ==> #[trigger] final(stats).count(s) == old(stats).count(s),
{
    match reason {
        WildcardReason::IpOverlap => stats.ip_overlap += 1,
        WildcardReason::CnameMatch => stats.cname_match += 1,
        WildcardReason::TimeoutInferred => stats.timeout_inferred += 1,
    }
}

/// What the assets of a run contribute to its statistics.
pub struct AssetCounts {
    pub eligible: usize,
    pub statuses: DnsStatusStats,
    pub wildcard_decisions: WildcardDecisionStats,
    pub short_circuits: DnsShortCircuitStats,
}

/// Whether counts are those of a list of assets.
pub open spec fn counts_of(c: AssetCounts, v: Seq<AssetView>) -> bool {
    &&& c.eligible == tally(v, |a: AssetView| a.host())
    &&& forall|s: DnsStatus| #[trigger]
        c.statuses.count(s) == tally(v, |a: AssetView| a.dns == s)
    &&& forall|r: WildcardReason| #[trigger]
        c.wildcard_decisions.count(r) == tally(v, |a: AssetView| a.wildcard_reason == Some(r))
    &&& c.short_circuits.dead_zone == tally(v, |a: AssetView| a.dead_zone is Some)
    &&& c.short_circuits.flaky_zone == tally(v, |a: AssetView| a.flaky_zone is Some)
}

/// Where no asset was settled by its zone, no short circuit is counted.
pub proof fn law_no_zone_no_short_circuit(c: AssetCounts, v: Seq<AssetView>)
    requires
        counts_of(c, v),
        forall|i: int|
            0 <= i < v.len() ==> (#[trigger] v[i]).dead_zone is None && v[i].flaky_zone is None,
    ensures
        c.short_circuits == (DnsShortCircuitStats { dead_zone: 0, flaky_zone: 0 }),
{
    lemma_tally_none(v, |a: AssetView| a.dead_zone is Some);
    lemma_tally_none(v, |a: AssetView| a.flaky_zone is Some);
}

/// Counts assets by status, by wildcard reason and by short circuit. Every asset has
/// one status.
pub fn count_assets(assets: &Vec<Asset>) -> (r: AssetCounts)
    ensures
        counts_of(r, views(assets@)),
        r.statuses.sum() == assets@.len(),
{
    let ghost all = views(assets@);
    let mut c = AssetCounts {
        eligible: 0,
        statuses: DnsStatusStats::default(),
        wildcard_decisions: WildcardDecisionStats::default(),
        short_circuits: DnsShortCircuitStats::default(),
    };
    assert(all.take(0) =~= Seq::empty());
    proof {
        let s = c.statuses;
        assert(s.count(DnsStatus::Unknown) == 0 && s.count(DnsStatus::Resolved) == 0 && s.count(
            DnsStatus::Unresolved,
        ) == 0 && s.count(DnsStatus::WildcardIp) == 0 && s.count(DnsStatus::WildcardCname) == 0
            && s.count(DnsStatus::MixedWildcard) == 0 && s.count(DnsStatus::Shaky) == 0 && s.count(
            DnsStatus::Timeout,
        ) == 0 && s.count(DnsStatus::Error) == 0);
    }
    let mut i: usize = 0;
    while i < assets.len()
        invariant
            i <= assets@.len(),
            all == views(assets@),
            counts_of(c, all.take(i as int)),
            c.statuses.sum() == i,
        decreases assets.len() - i,
    {
        let a = &assets[i];
        let ghost before = all.take(i as int);
        let ghost after = all.take(i + 1);
        assert(after.drop_last() =~= before);
        assert(after.last() == a@);
        proof {
            lemma_tally_bound(before, |a: AssetView| a.host());
            lemma_tally_bound(before, |b: AssetView| b.dns == a.dns);
            lemma_tally_bound(before, |b: AssetView| b.dead_zone is Some);
            lemma_tally_bound(before, |b: AssetView| b.flaky_zone is Some);
            if a.wildcard_reason is Some {
                lemma_tally_bound(
                    before,
                    |b: AssetView| b.wildcard_reason == Some(a.wildcard_reason->0),
                );
            }
            assert(c.statuses.count(a.dns) == tally(before, |b: AssetView| b.dns == a.dns));
        }
        if a.is_host() {
            c.eligible += 1;
        }
        add_status_stat(&mut c.statuses, a.dns);
        if let Some(reason) = a.wildcard_reason {
            assert(c.wildcard_decisions.count(reason) == tally(
                before,
                |b: AssetView| b.wildcard_reason == Some(reason),
            ));
            add_wildcard_reason_stat(&mut c.wildcard_decisions, reason);
        }
        if a.dead_zone.is_some() {
            c.short_circuits.dead_zone += 1;
        }
        if a.flaky_zone.is_some() {
            c.short_circuits.flaky_zone += 1;
        }
        i += 1;
    }
    assert(all.take(i as int) =~= all);
    c
}

/// What is counted of assets: those that can be asked for, and each once by its status, by
/// its wildcard reason and by the zone that settled it.
pub proof fn law_one_more_asset_is_counted_once(
    c: AssetCounts,
    d: AssetCounts,
    v: Seq<AssetView>,
    a: AssetView,
    s: DnsStatus,
    r: WildcardReason,
)
    requires
        counts_of(c, v),
        counts_of(d, v.push(a)),
    ensures
        d.eligible - c.eligible == (if a.kind is Apex || a.kind is Subdomain || a.kind is Ip {
            1int
        } else {
            0
        }),
        d.statuses.count(s) - c.statuses.count(s) == (if a.dns == s {
            1int
        } else {
            0
        }),
        d.wildcard_decisions.count(r) - c.wildcard_decisions.count(r) == (if a.wildcard_reason
            == Some(r) {
            1int
        } else {
            0
        }),
        d.short_circuits.dead_zone - c.short_circuits.dead_zone == (if a.dead_zone is Some {
            1int
        } else {
            0
        }),
        d.short_circuits.flaky_zone - c.short_circuits.flaky_zone == (if a.flaky_zone is Some {
            1int
        } else {
            0
        }),
{
    let w = v.push(a);
    assert(w.drop_last() =~= v);
    assert(w.last() == a);
    assert(d.statuses.count(s) == tally(w, |b: AssetView| b.dns == s));
    assert(c.statuses.count(s) == tally(v, |b: AssetView| b.dns == s));
    assert(d.wildcard_decisions.count(r) == tally(w, |b: AssetView| b.wildcard_reason == Some(r)));
    assert(c.wildcard_decisions.count(r) == tally(v, |b: AssetView| b.wildcard_reason == Some(r)));
}

} // verus!

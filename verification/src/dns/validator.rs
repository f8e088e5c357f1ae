//! The state of a validation run, and the steps that move it.
//!
//! A run goes through these steps. The caller performs the queries in between.
//!
//! 1. `begin` says which zones to probe.
//! 2. For each zone, `plan_round` says what to ask, and `finish_round` takes the answers;
//!    it settles the zone or asks for one more round.
//! 3. For each asset, `begin_host` settles it at once or says what to ask, and
//!    `finish_host` takes the answers.
//! 4. `report` sums the run up.

use vstd::prelude::*;

use crate::cdn::{lookup, provider_of, CdnTable, CdnView};
use crate::dns::answers::{answers_views, merge_answers, merged_answers, AnswersView, HostAnswers};
use crate::dns::config::DnsConfig;
use crate::dns::decision::{
    apply_cdn_downgrade, cdn_of, compute_confidence, confidence_in, detect_cdn, downgraded,
    final_decision, is_hijacked_outcome, law_verdicts_rest_on_observations, opt_signature,
    opt_signature_ref, verdict, Elapsed, SignatureView, WildcardSignature,
};
use crate::dns::probe::{
    decisive, is_probe_name, judge_one_round, judge_two_rounds, plan_probes, round_signature,
    state_after_one, state_after_two, summarize_round, Probe,
};
use crate::dns::stats::{count_assets, counts_of, AssetCounts, DnsStats, ResolverDisagreementStats};
use crate::dns::tracking::{
    apply_resolver_health_sample, countable, flaky_after, health_after, stats_of, FlakyStats,
    FlakyTable, ResolverHealthCounters,
};
use crate::dns::zones::{
    all_ancestors, all_signatures, ancestors, collect_ancestors, first_dead, host_for_dns,
    law_nearest_dead_zone_is_named, law_signatures_of_all_wildcards_are_united, parent, parent_of,
    query_host, some_wildcard, state_of, ParentState, StateView, ZoneTable,
};
use crate::ip::{holds_ip, ip_value, IpAddr};
use crate::lists::{added, inside, places, tally};
use crate::model::{views, Asset, AssetKind, AssetView, Confidence, DnsStatus};
use crate::order::{sort_items, sorted_items};
use crate::text::{copy_texts, texts};

verus! {

/// Why a run cannot start.
#[derive(Debug, Clone, Copy, PartialEq, Eq, Structural)]
pub enum ConfigError {
    NoResolvers,
}

/// Query counters of a run.
#[derive(Debug, Clone, Copy, PartialEq, Eq, Structural)]
pub struct DnsRuntimeCounters {
    pub probe_queries: usize,
    pub host_queries: usize,
    pub answer_vs_nxdomain: usize,
    pub answer_vs_timeout: usize,
    pub answer_vs_error: usize,
    pub distinct_ip_sets: usize,
    pub distinct_cname_sets: usize,
}

/// All counters at zero.
pub open spec fn zero_counters() -> DnsRuntimeCounters {
    DnsRuntimeCounters {
        probe_queries: 0,
        host_queries: 0,
        answer_vs_nxdomain: 0,
        answer_vs_timeout: 0,
        answer_vs_error: 0,
        distinct_ip_sets: 0,
        distinct_cname_sets: 0,
    }
}

impl Default for DnsRuntimeCounters {
    fn default() -> (r: Self)
        ensures
            r == zero_counters(),
    {
        DnsRuntimeCounters {
            probe_queries: 0,
            host_queries: 0,
            answer_vs_nxdomain: 0,
            answer_vs_timeout: 0,
            answer_vs_error: 0,
            distinct_ip_sets: 0,
            distinct_cname_sets: 0,
        }
    }
}

/// The sum of two counts, or the largest count.
pub open spec fn capped(a: usize, b: int) -> usize {
    if a + b >= usize::MAX {
        usize::MAX
    } else {
        (a + b) as usize
    }
}

fn add_capped(a: usize, b: usize) -> (r: usize)
    ensures
        r == capped(a, b as int),
{
    if a >= usize::MAX - b {
        usize::MAX
    } else {
        a + b
    }
}

/// A count with one more if something holds.
pub open spec fn bumped(n: usize, yes: bool) -> usize {
    capped(
        n,
        if yes {
            1
        } else {
            0
        },
    )
}

fn bump(n: usize, yes: bool) -> (r: usize)
    ensures
        r == bumped(n, yes),
{
    add_capped(
        n,
        if yes {
            1
        } else {
            0
        },
    )
}

/// The counters after the merged answers to one host.
pub open spec fn counters_after(c: DnsRuntimeCounters, a: AnswersView) -> DnsRuntimeCounters {
    DnsRuntimeCounters {
        answer_vs_nxdomain: bumped(
            c.answer_vs_nxdomain,
            a.answer_count > 0 && a.nxdomain_count > 0,
        ),
        answer_vs_timeout: bumped(c.answer_vs_timeout, a.answer_count > 0 && a.timeout_count > 0),
        answer_vs_error: bumped(c.answer_vs_error, a.answer_count > 0 && a.error_count > 0),
        distinct_ip_sets: bumped(c.distinct_ip_sets, a.distinct_ip_sets > 1),
        distinct_cname_sets: bumped(c.distinct_cname_sets, a.distinct_cname_sets > 1),
        ..c
    }
}

impl DnsRuntimeCounters {
    /// Counts in what way resolvers differed on a host.
    pub fn record_disagreement(&mut self, answers: &HostAnswers)
        ensures
            *final(self) == counters_after(*old(self), answers@),
    {
        self.answer_vs_nxdomain = bump(
            self.answer_vs_nxdomain,
            answers.answer_count > 0 && answers.nxdomain_count > 0,
        );
        self.answer_vs_timeout = bump(
            self.answer_vs_timeout,
            answers.answer_count > 0 && answers.timeout_count > 0,
        );
        self.answer_vs_error = bump(
            self.answer_vs_error,
            answers.answer_count > 0 && answers.error_count > 0,
        );
        self.distinct_ip_sets = bump(self.distinct_ip_sets, answers.distinct_ip_sets > 1);
        self.distinct_cname_sets = bump(self.distinct_cname_sets, answers.distinct_cname_sets > 1);
    }
}

// ---------------------------------------------------------------------------
// Resolvers

/// The places below `n` of the resolvers that are not flagged.
pub open spec fn unflagged(h: Seq<ResolverHealthCounters>, n: int) -> Seq<int>
    decreases n,
{
    if n <= 0 {
        Seq::empty()
    } else if h[n - 1].flagged {
        unflagged(h, n - 1)
    } else {
        unflagged(h, n - 1).push(n - 1)
    }
}

/// The places of the resolvers to use: those that are not flagged, or all of them if
/// every one is flagged.
pub open spec fn usable(h: Seq<ResolverHealthCounters>) -> Seq<int> {
    let u = unflagged(h, h.len() as int);
    if u.len() == 0 {
        Seq::new(h.len(), |i: int| i)
    } else {
        u
    }
}

/// The places of the resolvers to use.
pub fn usable_resolvers(health: &Vec<ResolverHealthCounters>) -> (r: Vec<usize>)
    ensures
        places(r@) == usable(health@),
        health@.len() > 0 ==> r@.len() > 0,
        forall|i: int| 0 <= i < r@.len() ==> (#[trigger] r@[i]) < health@.len(),
{
    let n: usize = health.len();
    let mut out: Vec<usize> = Vec::new();
    let mut i: usize = 0;
    assert(places(out@) =~= unflagged(health@, 0));
    while i < n
        invariant
            n == health@.len(),
            i <= n,
            places(out@) == unflagged(health@, i as int),
            forall|j: int| 0 <= j < out@.len() ==> (#[trigger] out@[j]) < health@.len(),
        decreases n - i,
    {
        let ghost before = places(out@);
        if !health[i].flagged {
            out.push(i);
            assert(places(out@) =~= before.push(i as int));
        }
        i += 1;
    }
    if out.len() == 0 {
        let mut all: Vec<usize> = Vec::new();
        let mut k: usize = 0;
        while k < n
            invariant
                n == health@.len(),
                k <= n,
                all@.len() == k,
                forall|j: int| 0 <= j < k ==> (#[trigger] all@[j]) == j,
            decreases n - k,
        {
            all.push(k);
            k += 1;
        }
        assert(unflagged(health@, n as int).len() == 0);
        assert(places(all@) =~= usable(health@));
        return all;
    }
    out
}

/// Whether a resolver's counts can still grow.
pub open spec fn can_count(h: ResolverHealthCounters) -> bool {
    h.total < usize::MAX && h.timeouts < usize::MAX
}

/// A resolver's counts after the answers to one query. Counts that are full stay as they
/// are.
pub open spec fn outcome_recorded(
    h: ResolverHealthCounters,
    config: DnsConfig,
    a: AnswersView,
) -> ResolverHealthCounters {
    if can_count(h) {
        health_after(
            h,
            config.resolver_unhealthy_threshold,
            config.resolver_min_samples,
            a.any_answer,
            a.any_timeout,
            a.all_nxdomain,
        )
    } else {
        h
    }
}

/// The counts of all resolvers after the answers to queries in turn. Answers of unknown
/// resolvers are ignored.
pub open spec fn outcomes_recorded(
    h: Seq<ResolverHealthCounters>,
    config: DnsConfig,
    results: Seq<(usize, HostAnswers)>,
) -> Seq<ResolverHealthCounters>
    decreases results.len(),
{
    if results.len() == 0 {
        h
    } else {
        let before = outcomes_recorded(h, config, results.drop_last());
        let (i, a) = results.last();
        if i < before.len() {
            before.update(i as int, outcome_recorded(before[i as int], config, a@))
        } else {
            before
        }
    }
}

/// The answers without the resolvers that gave them.
pub open spec fn only_answers(results: Seq<(usize, HostAnswers)>) -> Seq<AnswersView> {
    results.map_values(|r: (usize, HostAnswers)| r.1@)
}

// ---------------------------------------------------------------------------
// Verdicts on assets

/// A host as it is when the answers are in.
pub open spec fn judged(
    asset: AssetView,
    a: AnswersView,
    sig: Option<SignatureView>,
    infer: bool,
    table: CdnView,
) -> AssetView {
    let cdn = cdn_of(table, a);
    let d = downgraded(verdict(a, sig, infer), cdn);
    AssetView {
        resolver_disagreement: a.disagreement,
        ips: if a.any_answer {
            sorted_items(a.ips)
        } else {
            asset.ips
        },
        cnames: if a.any_answer && asset.cnames.len() == 0 {
            a.cnames
        } else {
            asset.cnames
        },
        cdn: if cdn is Some {
            cdn
        } else {
            asset.cdn
        },
        confidence: Some(confidence_in(d, a, cdn is Some)),
        dns: d.status,
        wildcard_root: d.wildcard_root,
        wildcard_reason: d.wildcard_reason,
        wildcard_cname: d.wildcard_cname,
        wildcard_ip_overlap_count: d.ip_overlap as usize,
        wildcard_cname_overlap_count: d.cname_overlap as usize,
        wildcard_host_ip_count: d.host_ips as usize,
        wildcard_signature_ip_count: d.signature_ips as usize,
        wildcard_signature_cname_count: d.signature_cnames as usize,
        ..asset
    }
}

/// Judges a host by its merged answers.
pub fn judge_host(
    asset: Asset,
    answers: &HostAnswers,
    sig: Option<&WildcardSignature>,
    infer: bool,
    table: &CdnTable,
) -> (r: Asset)
    requires
        table@.wf(),
        answers@.wf(),
        sig matches Some(s) ==> s@.wf(),
    ensures
        r@ == judged(asset@, answers@, opt_signature_ref(sig), infer, table@),
{
    let mut asset = asset;
    asset.resolver_disagreement = answers.disagreement;
    if answers.any_answer {
        asset.ips = sort_items(&answers.ips);
        if asset.cnames.len() == 0 {
            asset.cnames = copy_texts(&answers.cnames);
        }
    }
    let mut decision = final_decision(answers, sig, infer);
    let cdn = detect_cdn(table, answers);
    apply_cdn_downgrade(&mut decision, cdn);
    if let Some(provider) = cdn {
        asset.cdn = Some(provider.to_string());
    }
    asset.confidence = Some(compute_confidence(&decision, answers, cdn.is_some()));
    asset.dns = decision.status;
    asset.wildcard_root = decision.wildcard_root;
    asset.wildcard_reason = decision.wildcard_reason;
    asset.wildcard_cname = decision.wildcard_cname;
    asset.wildcard_ip_overlap_count = decision.wildcard_ip_overlap_count;
    asset.wildcard_cname_overlap_count = decision.wildcard_cname_overlap_count;
    asset.wildcard_host_ip_count = decision.wildcard_host_ip_count;
    asset.wildcard_signature_ip_count = decision.wildcard_signature_ip_count;
    asset.wildcard_signature_cname_count = decision.wildcard_signature_cname_count;
    asset
}

/// An address as it is without any query: the literal is its own answer.
pub open spec fn literal_judged(asset: AssetView, host: Seq<char>, table: CdnView) -> AssetView {
    let with_status = AssetView {
        dns: DnsStatus::Resolved,
        confidence: Some(Confidence::fraction(100, 100)),
        ..asset
    };
    match ip_value(host) {
        None => with_status,
        Some(ip) => AssetView {
            ips: added(asset.ips, ip),
            cdn: match provider_of(table, ip) {
                Some(p) => Some(p),
                None => asset.cdn,
            },
            ..with_status
        },
    }
}

/// What is to be done for an asset.
pub open spec fn settled_without_query(
    asset: AssetView,
    config: DnsConfig,
    zones: Map<Seq<char>, ParentState>,
    flaky: Map<Seq<char>, FlakyStats>,
    table: CdnView,
) -> Option<AssetView> {
    match query_host(asset) {
        None => Some(
            if asset.kind is Garbage || asset.kind is Wildcard {
                asset
            } else {
                AssetView { dns: DnsStatus::Unknown, ..asset }
            },
        ),
        Some(host) => {
            let dead = if config.wildcard_filter && config.skip_dead_zones {
                first_dead(zones, ancestors(host))
            } else {
                None
            };
            let zone = if config.flaky_rule() {
                parent(host)
            } else {
                None
            };
            if asset.kind is Ip {
                Some(literal_judged(asset, host, table))
            } else if dead is Some {
                Some(
                    AssetView {
                        dns: DnsStatus::Timeout,
                        dead_zone: dead,
                        confidence: Some(Confidence::fraction(50, 100)),
                        ..asset
                    },
                )
            } else if zone is Some && stats_of(flaky, zone->0).flagged {
                Some(
                    AssetView {
                        dns: DnsStatus::Timeout,
                        flaky_zone: zone,
                        confidence: Some(Confidence::fraction(30, 100)),
                        ..asset
                    },
                )
            } else {
                None
            }
        },
    }
}

/// The signature that a host is held against.
pub open spec fn signature_for(
    host: Seq<char>,
    config: DnsConfig,
    zones: Map<Seq<char>, ParentState>,
) -> Option<SignatureView> {
    if config.wildcard_filter {
        all_signatures(zones, ancestors(host), None)
    } else {
        None
    }
}

/// An asset that waits for answers.
pub struct PendingHost {
    pub asset: Asset,
    /// The name to ask for.
    pub host: String,
    /// The resolvers to ask.
    pub resolvers: Vec<usize>,
    /// The signature that the answers are held against.
    pub signature: Option<WildcardSignature>,
}

impl PendingHost {
    /// Whether the signature lists nothing twice.
    pub open spec fn wf(self) -> bool {
        self.signature matches Some(s) ==> s@.wf()
    }
}

/// The next step for an asset.
pub enum HostStep {
    Done(Asset),
    Ask(PendingHost),
}

/// The next step for a zone after a round of probes.
pub enum ZoneStep {
    Settled,
    /// One more round is needed; the result of the first one is to be handed in with it.
    Again(FirstRound),
}

/// The result of an indecisive first round.
pub struct FirstRound {
    pub signature: Option<WildcardSignature>,
    pub decisive: usize,
}

/// The result of a run.
pub struct DnsReport {
    pub assets: Vec<Asset>,
    pub wildcard_roots: Vec<String>,
    pub dead_zones: Vec<String>,
    pub flaky_zones: Vec<String>,
    pub stats: DnsStats,
}

/// The state of a validation run.
pub struct DnsValidator {
    pub config: DnsConfig,
    pub table: CdnTable,
    /// Counts of each resolver, in the order of the configuration.
    pub health: Vec<ResolverHealthCounters>,
    pub zones: ZoneTable,
    pub flaky: FlakyTable,
    pub counters: DnsRuntimeCounters,
}

impl DnsValidator {
    /// There is a resolver, each one has counts, and the tables are well formed.
    pub open spec fn wf(&self) -> bool {
        &&& self.config.resolvers@.len() > 0
        &&& self.health@.len() == self.config.resolvers@.len()
        &&& self.table@.wf()
        &&& self.zones.wf()
        &&& self.flaky.wf()
    }

    /// Starts a run. A configuration without resolvers is refused.
    pub fn new(config: DnsConfig, table: CdnTable) -> (r: Result<Self, ConfigError>)
        requires
            table@.wf(),
        ensures
            match r {
                Ok(v) => {
                    &&& v.wf()
                    &&& v.config == config
                    &&& v.table == table
                    &&& forall|i: int|
                        0 <= i < v.health@.len() ==> (#[trigger] v.health@[i])
                            == (ResolverHealthCounters { total: 0, timeouts: 0, flagged: false })
                    &&& v.zones@ == Map::<Seq<char>, ParentState>::empty()
                    &&& v.flaky@ == Map::<Seq<char>, FlakyStats>::empty()
                    &&& v.counters == zero_counters()
                },
                Err(e) => e is NoResolvers,
            },
            r is Err <==> config.resolvers@.len() == 0,
    {
        let n: usize = config.resolvers.len();
        if n == 0 {
            return Err(ConfigError::NoResolvers);
        }
        let mut health: Vec<ResolverHealthCounters> = Vec::new();
        let mut i: usize = 0;
        while i < n
            invariant
                i <= n,
                health@.len() == i,
                forall|j: int|
                    0 <= j < i ==> (#[trigger] health@[j]) == (ResolverHealthCounters {
                        total: 0,
                        timeouts: 0,
                        flagged: false,
                    }),
            decreases n - i,
        {
            health.push(ResolverHealthCounters::default());
            i += 1;
        }
        Ok(
            DnsValidator {
                config,
                table,
                health,
                zones: ZoneTable::new(),
                flaky: FlakyTable::new(),
                counters: DnsRuntimeCounters::default(),
            },
        )
    }

    /// The places of the resolvers to use.
    pub fn healthy_resolver_indices(&self) -> (r: Vec<usize>)
        requires
            self.wf(),
        ensures
            places(r@) == usable(self.health@),
            r@.len() > 0,
            forall|i: int|
                0 <= i < r@.len() ==> (#[trigger] r@[i]) < self.config.resolvers@.len(),
    {
        usable_resolvers(&self.health)
    }

    /// Takes a resolver out of use.
    pub fn flag_resolver_unhealthy(&mut self, idx: usize)
        requires
            old(self).wf(),
        ensures
            final(self).wf(),
            *final(self) == (DnsValidator { health: final(self).health, ..*old(self) }),
            final(self).health@ == (if idx < old(self).health@.len() {
                old(self).health@.update(
                    idx as int,
                    ResolverHealthCounters { flagged: true, ..old(self).health@[idx as int] },
                )
            } else {
                old(self).health@
            }),
    {
        if idx < self.health.len() {
            let mut h = self.health[idx];
            h.flagged = true;
            self.health.set(idx, h);
        }
    }

    /// Takes the outcome of a probe of a name under `.invalid`: a resolver that answers is
    /// taken out of use.
    pub fn record_hijack_probe(&mut self, idx: usize, outcome: &Result<HostAnswers, Elapsed>)
        requires
            old(self).wf(),
        ensures
            final(self).wf(),
            *final(self) == (DnsValidator { health: final(self).health, ..*old(self) }),
            final(self).health@ == (if idx < old(self).health@.len() && outcome is Ok
                && outcome->Ok_0.any_answer {
                old(self).health@.update(
                    idx as int,
                    ResolverHealthCounters { flagged: true, ..old(self).health@[idx as int] },
                )
            } else {
                old(self).health@
            }),
    {
        if is_hijacked_outcome(outcome) {
            self.flag_resolver_unhealthy(idx);
        }
    }

    fn record_outcomes(&mut self, results: &Vec<(usize, HostAnswers)>)
        requires
            old(self).wf(),
        ensures
            final(self).wf(),
            *final(self) == (DnsValidator { health: final(self).health, ..*old(self) }),
            final(self).health@ == outcomes_recorded(
                old(self).health@,
                old(self).config,
                results@,
            ),
    {
        let mut i: usize = 0;
        assert(results@.take(0) =~= Seq::empty());
        while i < results.len()
            invariant
                i <= results@.len(),
                self.wf(),
                *self == (DnsValidator { health: self.health, ..*old(self) }),
                self.health@ == outcomes_recorded(
                    old(self).health@,
                    old(self).config,
                    results@.take(i as int),
                ),
            decreases results.len() - i,
        {
            assert(results@.take(i + 1).drop_last() =~= results@.take(i as int));
            assert(results@.take(i + 1).last() == results@[i as int]);
            let idx: usize = results[i].0;
            let answers = &results[i].1;
            if idx < self.health.len() {
                let mut h = self.health[idx];
                if h.total < usize::MAX && h.timeouts < usize::MAX {
                    apply_resolver_health_sample(
                        &mut h,
                        self.config.resolver_unhealthy_threshold,
                        self.config.resolver_min_samples,
                        answers.any_answer,
                        answers.any_timeout,
                        answers.all_nxdomain,
                    );
                }
                self.health.set(idx, h);
            }
            i += 1;
        }
        assert(results@.take(i as int) =~= results@);
    }

    /// Resets the counters and says which zones to probe: those above the hosts, or none
    /// without wildcard filtering.
    pub fn begin(&mut self, assets: &Vec<Asset>) -> (r: Vec<String>)
        requires
            old(self).wf(),
        ensures
            final(self).wf(),
            *final(self) == (DnsValidator { counters: zero_counters(), ..*old(self) }),
            texts(r@) == (if old(self).config.wildcard_filter {
                all_ancestors(views(assets@))
            } else {
                Seq::empty()
            }),
            texts(r@).no_duplicates(),
    {
        self.counters = DnsRuntimeCounters::default();
        if self.config.wildcard_filter {
            collect_ancestors(assets)
        } else {
            let none: Vec<String> = Vec::new();
            assert(texts(none@) =~= Seq::empty());
            none
        }
    }

    /// The number of probes of a round; at least one.
    pub open spec fn tests(&self) -> nat {
        if self.config.wildcard_tests >= 1 {
            self.config.wildcard_tests as nat
        } else {
            1
        }
    }

    fn probe_count(&self) -> (r: usize)
        ensures
            r == self.tests(),
    {
        if self.config.wildcard_tests >= 1 {
            self.config.wildcard_tests
        } else {
            1
        }
    }

    /// Plans a round of probes of a zone, spread over the resolvers in use.
    pub fn plan_round(&self, zone: &str) -> (r: Vec<Probe>)
        requires
            self.wf(),
        ensures
            r@.len() == self.tests(),
            forall|i: int|
                0 <= i < r@.len() ==> (#[trigger] r@[i]).resolver == usable(self.health@)[i
                    % usable(self.health@).len() as int] && is_probe_name(r@[i].name@, zone@, 16),
    {
        let resolvers = self.healthy_resolver_indices();
        let probes = plan_probes(zone, self.probe_count(), &resolvers);
        assert forall|i: int| 0 <= i < probes@.len() implies (#[trigger] probes@[i]).resolver
            == usable(self.health@)[i % usable(self.health@).len() as int] by {
            let n = resolvers@.len() as int;
            assert(0 <= i % n < n) by (nonlinear_arith)
                requires
                    n > 0,
            ;
            assert(places(resolvers@)[i % n] == resolvers@[i % n]);
        }
        probes
    }

    /// Takes the answers to a round of probes. With the result of an indecisive first
    /// round, the zone is settled; without, it is settled if the round was decisive.
    pub fn finish_round(
        &mut self,
        zone: &str,
        results: &Vec<(usize, HostAnswers)>,
        first: Option<FirstRound>,
    ) -> (r: ZoneStep)
        requires
            old(self).wf(),
        ensures
            final(self).wf(),
            final(self).config == old(self).config,
            final(self).table == old(self).table,
            final(self).flaky == old(self).flaky,
            final(self).health@ == outcomes_recorded(
                old(self).health@,
                old(self).config,
                results@,
            ),
            final(self).counters == (DnsRuntimeCounters {
                probe_queries: capped(old(self).counters.probe_queries, results@.len() as int),
                ..old(self).counters
            }),
            ({
                let sig = round_signature(zone@, only_answers(results@));
                let n = decisive(only_answers(results@));
                let state = match first {
                    None => state_after_one(old(self).tests(), sig, n),
                    Some(f) => Some(
                        state_after_two(opt_signature(f.signature), f.decisive as nat, sig, n),
                    ),
                };
                match r {
                    ZoneStep::Settled => exists|s: ParentState|
                        state == Some(#[trigger] s@) && final(self).zones@ == old(
                            self,
                        ).zones@.insert(zone@, s),
                    ZoneStep::Again(f) => state is None && final(self).zones@ == old(self).zones@
                        && opt_signature(f.signature) == sig && f.decisive == n,
                }
            }),
    {
        self.counters.probe_queries = add_capped(self.counters.probe_queries, results.len());
        self.record_outcomes(results);
        let answers = take_answers(results);
        let (sig, n) = summarize_round(zone, &answers);
        match first {
            None => match judge_one_round(self.probe_count(), sig, n) {
                Ok(state) => {
                    self.zones.record(zone.to_string(), state);
                    ZoneStep::Settled
                },
                Err(back) => ZoneStep::Again(FirstRound { signature: back, decisive: n }),
            },
            Some(f) => {
                let state = judge_two_rounds(f.signature, f.decisive, sig, n);
                self.zones.record(zone.to_string(), state);
                ZoneStep::Settled
            },
        }
    }

    /// The number of resolvers to ask for a host: as many as are to be compared and are
    /// in use, at least one.
    pub open spec fn asked(&self) -> int {
        let n = usable(self.health@).len() as int;
        let k = self.config.consistency_checks as int;
        if k < 1 {
            1
        } else if k > n {
            n
        } else {
            k
        }
    }

    /// The next step for an asset. Garbage and wildcards are passed through, addresses are
    /// their own answer, and hosts in dead or flaky zones are not asked for, unless that
    /// is switched off.
    pub fn begin_host(&self, asset: Asset) -> (r: HostStep)
        requires
            self.wf(),
        ensures
            ({
                let settled = settled_without_query(
                    asset@,
                    self.config,
                    self.zones@,
                    self.flaky@,
                    self.table@,
                );
                match r {
                    HostStep::Done(a) => settled == Some(a@),
                    HostStep::Ask(p) => {
                        &&& settled is None
                        &&& p.asset == asset
                        &&& query_host(asset@) == Some(p.host@)
                        &&& places(p.resolvers@) == usable(self.health@).take(self.asked())
                        &&& opt_signature(p.signature) == signature_for(
                            p.host@,
                            self.config,
                            self.zones@,
                        )
                        &&& p.wf()
                    },
                }
            }),
    {
        let mut asset = asset;
        let ghost before = asset@;
        let host = match host_for_dns(&asset) {
            Some(h) => h,
            None => {
                if asset.kind != AssetKind::Garbage && asset.kind != AssetKind::Wildcard {
                    asset.dns = DnsStatus::Unknown;
                }
                return HostStep::Done(asset);
            },
        };
        if asset.kind == AssetKind::Ip {
            asset.dns = DnsStatus::Resolved;
            asset.confidence = Some(Confidence::hundredths(100));
            if let Some(ip) = IpAddr::parse(host.as_str()) {
                if !holds_ip(&asset.ips, ip) {
                    asset.ips.push(ip);
                }
                if let Some(provider) = lookup(&self.table, ip) {
                    asset.cdn = Some(provider.to_string());
                }
            }
            assert(asset@ == literal_judged(before, host@, self.table@));
            return HostStep::Done(asset);
        }
        let signature = if self.config.wildcard_filter {
            let scan = self.zones.scan_ancestors(host.as_str());
            if self.config.skip_dead_zones {
                if let Some(zone) = scan.dead_zone {
                    asset.dns = DnsStatus::Timeout;
                    asset.dead_zone = Some(zone);
                    asset.confidence = Some(Confidence::hundredths(50));
                    return HostStep::Done(asset);
                }
            }
            scan.signature
        } else {
            None
        };
        if self.config.flaky_enabled() {
            if let Some(zone) = parent_of(host.as_str()) {
                if self.flaky.is_flagged(zone.as_str()) {
                    asset.dns = DnsStatus::Timeout;
                    asset.flaky_zone = Some(zone);
                    asset.confidence = Some(Confidence::hundredths(30));
                    return HostStep::Done(asset);
                }
            }
        }
        let healthy = self.healthy_resolver_indices();
        let k: usize = self.config.consistency_checks;
        let n: usize = if k < 1 {
            1
        } else if k > healthy.len() {
            healthy.len()
        } else {
            k
        };
        let mut resolvers: Vec<usize> = Vec::new();
        let mut i: usize = 0;
        while i < n
            invariant
                i <= n <= healthy@.len(),
                resolvers@ == healthy@.take(i as int),
            decreases n - i,
        {
            resolvers.push(healthy[i]);
            i += 1;
            assert(resolvers@ =~= healthy@.take(i as int));
        }
        assert(places(resolvers@) =~= places(healthy@).take(n as int));
        HostStep::Ask(PendingHost { asset, host, resolvers, signature })
    }

    /// Takes the answers for a host.
    pub fn finish_host(&mut self, pending: PendingHost, results: &Vec<(usize, HostAnswers)>) -> (r:
        Asset)
        requires
            old(self).wf(),
            pending.wf(),
        ensures
            final(self).wf(),
            final(self).config == old(self).config,
            final(self).table == old(self).table,
            final(self).zones == old(self).zones,
            final(self).health@ == outcomes_recorded(
                old(self).health@,
                old(self).config,
                results@,
            ),
            ({
                let a = merged_answers(only_answers(results@));
                let zone = parent(pending.host@);
                let c = DnsRuntimeCounters {
                    host_queries: capped(old(self).counters.host_queries, results@.len() as int),
                    ..old(self).counters
                };
                &&& final(self).counters == counters_after(c, a)
                &&& final(self).flaky@ == (if old(self).config.flaky_rule() && zone is Some {
                    flaky_recorded(old(self).flaky@, zone->0, old(self).config, a)
                } else {
                    old(self).flaky@
                })
                &&& r@ == judged(
                    pending.asset@,
                    a,
                    opt_signature(pending.signature),
                    old(self).config.infer_wildcard_on_timeout,
                    old(self).table@,
                )
            }),
    {
        self.counters.host_queries = add_capped(self.counters.host_queries, results.len());
        self.record_outcomes(results);
        let answers = merge_answers(&take_answers(results));
        self.counters.record_disagreement(&answers);
        if self.config.flaky_enabled() {
            if let Some(zone) = parent_of(pending.host.as_str()) {
                self.flaky.record(
                    zone.as_str(),
                    &answers,
                    self.config.flaky_threshold,
                    self.config.flaky_min_samples,
                );
            }
        }
        judge_host(
            pending.asset,
            &answers,
            pending.signature.as_ref(),
            self.config.infer_wildcard_on_timeout,
            &self.table,
        )
    }

    /// Sums the run up.
    pub fn report(&self, assets: Vec<Asset>, input_assets: usize, elapsed_ms: u128) -> (r: DnsReport)
        requires
            self.wf(),
        ensures
            r.assets == assets,
            r.stats.input_assets == input_assets,
            r.stats.elapsed_ms == elapsed_ms,
            r.stats.probe_queries == self.counters.probe_queries,
            r.stats.host_queries == self.counters.host_queries,
            r.stats.resolver_disagreement == (ResolverDisagreementStats {
                answer_vs_nxdomain: self.counters.answer_vs_nxdomain,
                answer_vs_timeout: self.counters.answer_vs_timeout,
                answer_vs_error: self.counters.answer_vs_error,
                distinct_ip_sets: self.counters.distinct_ip_sets,
                distinct_cname_sets: self.counters.distinct_cname_sets,
            }),
            counts_of(
                (AssetCounts {
                    eligible: r.stats.dns_eligible_assets,
                    statuses: r.stats.statuses,
                    wildcard_decisions: r.stats.wildcard_decisions,
                    short_circuits: r.stats.short_circuits,
                }),
                views(assets@),
            ),
            r.stats.statuses.sum() == assets@.len(),
            self.zones.counted_by(r.stats.signature_parents),
            self.zones.lists_roots(texts(r.wildcard_roots@)),
            self.zones.lists_dead(texts(r.dead_zones@)),
            self.flaky.lists_flagged(texts(r.flaky_zones@)),
    {
        let counts = count_assets(&assets);
        let c = self.counters;
        let stats = DnsStats {
            input_assets,
            dns_eligible_assets: counts.eligible,
            elapsed_ms,
            probe_queries: c.probe_queries,
            host_queries: c.host_queries,
            signature_parents: self.zones.count(),
            statuses: counts.statuses,
            wildcard_decisions: counts.wildcard_decisions,
            resolver_disagreement: ResolverDisagreementStats {
                answer_vs_nxdomain: c.answer_vs_nxdomain,
                answer_vs_timeout: c.answer_vs_timeout,
                answer_vs_error: c.answer_vs_error,
                distinct_ip_sets: c.distinct_ip_sets,
                distinct_cname_sets: c.distinct_cname_sets,
            },
            short_circuits: counts.short_circuits,
        };
        DnsReport {
            assets,
            wildcard_roots: self.zones.wildcard_roots(),
            dead_zones: self.zones.dead_zones(),
            flaky_zones: self.flaky.flagged_zones(),
            stats,
        }
    }
}

/// The counts of zones after one more host of a zone.
pub open spec fn flaky_recorded(
    m: Map<Seq<char>, FlakyStats>,
    zone: Seq<char>,
    config: DnsConfig,
    a: AnswersView,
) -> Map<Seq<char>, FlakyStats> {
    if countable(stats_of(m, zone)) {
        m.insert(
            zone,
            flaky_after(
                stats_of(m, zone),
                config.flaky_threshold,
                config.flaky_min_samples,
                a.any_answer,
                a.any_timeout,
            ),
        )
    } else {
        m
    }
}

fn take_answers(results: &Vec<(usize, HostAnswers)>) -> (r: Vec<HostAnswers>)
    ensures
        answers_views(r@) == only_answers(results@),
{
    let mut out: Vec<HostAnswers> = Vec::new();
    let mut i: usize = 0;
    while i < results.len()
        invariant
            i <= results@.len(),
            answers_views(out@) == only_answers(results@).take(i as int),
        decreases results.len() - i,
    {
        let ghost before = answers_views(out@);
        let copy = results[i].1.duplicate();
        out.push(copy);
        assert(answers_views(out@) =~= before.push(only_answers(results@)[i as int]));
        i += 1;
        assert(answers_views(out@) =~= only_answers(results@).take(i as int));
    }
    assert(only_answers(results@).take(i as int) =~= only_answers(results@));
    out
}

// ---------------------------------------------------------------------------
// Laws

/// Whether two records are of the same asset: what identifies it is the same.
pub open spec fn same_identity(a: AssetView, b: AssetView) -> bool {
    &&& a.raw == b.raw
    &&& a.canonical == b.canonical
    &&& a.kind == b.kind
    &&& a.registrable == b.registrable
    &&& a.port == b.port
    &&& a.scheme == b.scheme
    &&& a.reason == b.reason
    &&& a.covered_by == b.covered_by
    &&& a.scope == b.scope
}

/// Validation leaves alone what identifies an asset.
pub proof fn law_validation_keeps_identity(
    asset: AssetView,
    config: DnsConfig,
    zones: Map<Seq<char>, ParentState>,
    flaky: Map<Seq<char>, FlakyStats>,
    table: CdnView,
    a: AnswersView,
    sig: Option<SignatureView>,
)
    ensures
        settled_without_query(asset, config, zones, flaky, table) matches Some(s)
            ==> same_identity(s, asset),
        same_identity(judged(asset, a, sig, config.infer_wildcard_on_timeout, table), asset),
{
}

/// Garbage and wildcards are never asked for and pass through unchanged.
pub proof fn law_non_hosts_pass_through(
    asset: AssetView,
    config: DnsConfig,
    zones: Map<Seq<char>, ParentState>,
    flaky: Map<Seq<char>, FlakyStats>,
    table: CdnView,
)
    requires
        asset.kind is Garbage || asset.kind is Wildcard,
    ensures
        settled_without_query(asset, config, zones, flaky, table) == Some(asset),
{
}

/// With both short cuts switched off every apex and subdomain is asked for, and the
/// answers bring it no dead and no flaky zone.
pub proof fn law_every_host_is_asked_for(
    asset: AssetView,
    config: DnsConfig,
    zones: Map<Seq<char>, ParentState>,
    flaky: Map<Seq<char>, FlakyStats>,
    table: CdnView,
    a: AnswersView,
    sig: Option<SignatureView>,
)
    requires
        !config.skip_dead_zones,
        !config.flaky_rule(),
        asset.kind is Apex || asset.kind is Subdomain,
        query_host(asset) is Some,
    ensures
        settled_without_query(asset, config, zones, flaky, table) is None,
        judged(asset, a, sig, config.infer_wildcard_on_timeout, table).dead_zone
            == asset.dead_zone,
        judged(asset, a, sig, config.infer_wildcard_on_timeout, table).flaky_zone
            == asset.flaky_zone,
{
}

proof fn lemma_unflagged(h: Seq<ResolverHealthCounters>, n: int)
    requires
        0 <= n <= h.len(),
    ensures
        forall|i: int|
            0 <= i < unflagged(h, n).len() ==> 0 <= (#[trigger] unflagged(h, n)[i]) < n
                && !h[unflagged(h, n)[i]].flagged,
        forall|k: int|
            0 <= k < n && !(#[trigger] h[k]).flagged ==> unflagged(h, n).contains(k),
    decreases n,
{
    if n > 0 {
        lemma_unflagged(h, n - 1);
        let u = unflagged(h, n - 1);
        let v = unflagged(h, n);
        assert forall|i: int| 0 <= i < v.len() implies 0 <= (#[trigger] v[i]) < n
            && !h[v[i]].flagged by {
            if i < u.len() {
                assert(v[i] == u[i]);
            }
        }
        assert forall|k: int| 0 <= k < n && !(#[trigger] h[k]).flagged implies v.contains(k) by {
            if k < n - 1 {
                assert(u.contains(k));
                let i = choose|i: int| 0 <= i < u.len() && u[i] == k;
                assert(v[i] == k);
            } else {
                assert(v[v.len() - 1] == k);
            }
        }
    }
}

/// There is always a resolver to use. As long as one is not flagged, exactly those that
/// are not flagged are used; otherwise all are.
pub proof fn law_flagged_resolvers_are_skipped(h: Seq<ResolverHealthCounters>)
    requires
        h.len() > 0,
    ensures
        usable(h).len() > 0,
        (exists|k: int| 0 <= k < h.len() && !(#[trigger] h[k]).flagged) ==> forall|k: int|
            0 <= k < h.len() ==> (usable(h).contains(k) <==> !(#[trigger] h[k]).flagged),
        (forall|k: int| 0 <= k < h.len() ==> (#[trigger] h[k]).flagged) ==> usable(h).len()
            == h.len(),
{
    lemma_unflagged(h, h.len() as int);
    let u = unflagged(h, h.len() as int);
    if exists|k: int| 0 <= k < h.len() && !(#[trigger] h[k]).flagged {
        let k = choose|k: int| 0 <= k < h.len() && !(#[trigger] h[k]).flagged;
        assert(u.contains(k));
        assert forall|k: int| 0 <= k < h.len() implies (usable(h).contains(k) <==> !(
        #[trigger] h[k]).flagged) by {
            if u.contains(k) {
                let i = choose|i: int| 0 <= i < u.len() && u[i] == k;
                assert(!h[u[i]].flagged);
            }
        }
    }
    if forall|k: int| 0 <= k < h.len() ==> (#[trigger] h[k]).flagged {
        if u.len() > 0 {
            assert(!h[u[0]].flagged);
        }
    }
}

/// A host is held against every wildcard above it that was probed: each of their addresses
/// and CNAME targets is in the signature. Without wildcard filtering there is none.
pub proof fn law_hosts_are_held_against_wildcards_above(
    host: Seq<char>,
    config: DnsConfig,
    zones: Map<Seq<char>, ParentState>,
    zone: Seq<char>,
    s: SignatureView,
)
    requires
        ancestors(host).contains(zone),
        state_of(zones, zone) == Some(StateView::Wildcard(s)),
    ensures
        config.wildcard_filter ==> (signature_for(host, config, zones) matches Some(t) && inside(
            s.ips,
            t.ips,
        ) && inside(s.cnames, t.cnames)),
        !config.wildcard_filter ==> signature_for(host, config, zones) is None,
{
    let list = ancestors(host);
    law_signatures_of_all_wildcards_are_united(zones, list);
    let i = choose|i: int| 0 <= i < list.len() && list[i] == zone;
    assert(state_of(zones, list[i]) == Some(StateView::Wildcard(s)));
    assert(some_wildcard(zones, list, |s: SignatureView| true));
    if let Some(t) = all_signatures(zones, list, None) {
        assert forall|ip: IpAddr| s.ips.contains(ip) implies t.ips.contains(ip) by {
            assert(state_of(zones, list[i]) == Some(StateView::Wildcard(s)));
            assert(some_wildcard(zones, list, |s: SignatureView| s.ips.contains(ip)));
        }
        assert forall|c: Seq<char>| s.cnames.contains(c) implies t.cnames.contains(c) by {
            assert(state_of(zones, list[i]) == Some(StateView::Wildcard(s)));
            assert(some_wildcard(zones, list, |s: SignatureView| s.cnames.contains(c)));
        }
    }
}

/// A host is held against nothing but probed wildcards above it: where none of the zones
/// above is one, there is no signature.
pub proof fn law_hosts_below_no_wildcard_are_held_against_nothing(
    host: Seq<char>,
    config: DnsConfig,
    zones: Map<Seq<char>, ParentState>,
)
    requires
        forall|z: Seq<char>| #[trigger]
            ancestors(host).contains(z) ==> !(state_of(zones, z) matches Some(
                StateView::Wildcard(_),
            )),
    ensures
        signature_for(host, config, zones) is None,
{
    let list = ancestors(host);
    law_signatures_of_all_wildcards_are_united(zones, list);
    if some_wildcard(zones, list, |s: SignatureView| true) {
        let i = choose|i: int|
            0 <= i < list.len() && (state_of(zones, #[trigger] list[i]) matches Some(
                StateView::Wildcard(s),
            ));
        assert(list.contains(list[i]));
    }
}

/// A host that shows nothing but what random names below a zone above it show is judged as a
/// wildcard: it is neither resolved nor shaky, however deep it lies below the zone.
pub proof fn law_fake_hosts_are_judged_wildcards(
    asset: AssetView,
    a: AnswersView,
    host: Seq<char>,
    config: DnsConfig,
    zones: Map<Seq<char>, ParentState>,
    zone: Seq<char>,
    s: SignatureView,
    infer: bool,
    table: CdnView,
)
    requires
        config.wildcard_filter,
        ancestors(host).contains(zone),
        state_of(zones, zone) == Some(StateView::Wildcard(s)),
        a.any_answer,
        a.ips.len() > 0,
        inside(a.ips, s.ips),
    ensures
        judged(asset, a, signature_for(host, config, zones), infer, table).dns.wildcard(),
        cdn_of(table, a) is None ==> {
            ||| judged(asset, a, signature_for(host, config, zones), infer, table).dns is WildcardIp
            ||| judged(
                asset,
                a,
                signature_for(host, config, zones),
                infer,
                table,
            ).dns is WildcardCname
        },
{
    law_hosts_are_held_against_wildcards_above(host, config, zones, zone, s);
    let sig = signature_for(host, config, zones);
    law_verdicts_rest_on_observations(a, sig, infer);
    let t = sig->0;
    let ip = a.ips[0];
    assert(a.ips.contains(ip));
    assert(s.ips.contains(ip));
    assert(t.ips.contains(ip));
    assert forall|x: IpAddr| a.ips.contains(x) implies t.ips.contains(x) by {
        assert(s.ips.contains(x));
    }
}

/// What is settled without asking. An address is its own answer, with full confidence. A
/// host is only left out below a dead zone, if these are skipped, or in a flaky zone, if
/// there is such a rule, and then counts as timed out and names the zone.
pub proof fn law_what_is_settled_without_asking(
    asset: AssetView,
    config: DnsConfig,
    zones: Map<Seq<char>, ParentState>,
    flaky: Map<Seq<char>, FlakyStats>,
    table: CdnView,
    host: Seq<char>,
)
    requires
        query_host(asset) == Some(host),
    ensures
        ({
            let r = settled_without_query(asset, config, zones, flaky, table);
            let dead = exists|z: Seq<char>| #[trigger]
                ancestors(host).contains(z) && state_of(zones, z) == Some(StateView::Dead);
            let left_out = (config.wildcard_filter && config.skip_dead_zones && dead) || (
            config.flaky_rule() && (parent(host) matches Some(z) && stats_of(flaky, z).flagged));
            &&& asset.kind is Ip ==> (r matches Some(b) && b.dns is Resolved && (ip_value(
                host,
            ) matches Some(ip) ==> b.ips.contains(ip)) && (b.confidence matches Some(c) && c.num()
                == c.den()))
            &&& !(asset.kind is Ip) ==> (r is Some <==> left_out)
            &&& !(asset.kind is Ip) ==> (r matches Some(b) ==> b.dns is Timeout && b.ips
                == asset.ips && b.cnames == asset.cnames && (b.dead_zone is Some || b.flaky_zone
                is Some))
            &&& !(asset.kind is Ip) && config.wildcard_filter && config.skip_dead_zones && dead
                ==> (r matches Some(b) && b.dead_zone is Some && ancestors(host).contains(
                b.dead_zone->0,
            ) && state_of(zones, b.dead_zone->0) == Some(StateView::Dead))
        }),
{
    let list = ancestors(host);
    law_nearest_dead_zone_is_named(zones, list);
    if let Some(ip) = ip_value(host) {
        crate::lists::lemma_added(asset.ips, ip);
    }
    Confidence::lemma_fraction(100, 100);
    if exists|z: Seq<char>| #[trigger]
        list.contains(z) && state_of(zones, z) == Some(StateView::Dead) {
        let z = choose|z: Seq<char>| #[trigger]
            list.contains(z) && state_of(zones, z) == Some(StateView::Dead);
        let i = choose|i: int| 0 <= i < list.len() && list[i] == z;
        assert(state_of(zones, list[i]) == Some(StateView::Dead));
    }
    if let Some(z) = first_dead(zones, list) {
        assert(list.contains(z));
    }
}

/// How many resolvers are asked for a host: as many as answers are to be compared, but at
/// least one and no more than are in use.
pub proof fn law_enough_resolvers_are_asked(v: DnsValidator)
    requires
        v.wf(),
    ensures
        1 <= v.asked() <= usable(v.health@).len(),
        v.config.consistency_checks <= usable(v.health@).len() ==> v.asked()
            >= v.config.consistency_checks,
        v.asked() <= 1 || v.asked() <= v.config.consistency_checks,
        v.config.consistency_checks > usable(v.health@).len() ==> v.asked() == usable(
            v.health@,
        ).len(),
{
    law_flagged_resolvers_are_skipped(v.health@);
}

/// Each answer is counted for the resolver that gave it and for no other.
pub proof fn law_answers_count_for_their_resolver(
    h: Seq<ResolverHealthCounters>,
    config: DnsConfig,
    results: Seq<(usize, HostAnswers)>,
    i: int,
)
    requires
        0 <= i < h.len(),
        h[i].total + results.len() < usize::MAX,
        h[i].timeouts + results.len() < usize::MAX,
    ensures
        outcomes_recorded(h, config, results).len() == h.len(),
        outcomes_recorded(h, config, results)[i].total == h[i].total + tally(
            results,
            |r: (usize, HostAnswers)| r.0 == i,
        ),
        h[i].timeouts <= outcomes_recorded(h, config, results)[i].timeouts <= h[i].timeouts
            + tally(results, |r: (usize, HostAnswers)| r.0 == i),
        h[i].flagged ==> outcomes_recorded(h, config, results)[i].flagged,
    decreases results.len(),
{
    if results.len() > 0 {
        let rest = results.drop_last();
        law_answers_count_for_their_resolver(h, config, rest, i);
        crate::lists::lemma_tally_bound(rest, |r: (usize, HostAnswers)| r.0 == i);
    }
}

/// What a host is after its answers: the addresses are those that were answered, the status
/// is a verdict, and the evidence comes with it. Without an answer the addresses stay.
pub proof fn law_answers_are_kept(
    asset: AssetView,
    a: AnswersView,
    sig: Option<SignatureView>,
    infer: bool,
    table: CdnView,
)
    ensures
        ({
            let r = judged(asset, a, sig, infer, table);
            &&& a.any_answer ==> forall|ip: IpAddr| #[trigger]
                r.ips.contains(ip) <==> a.ips.contains(ip)
            &&& !a.any_answer ==> r.ips == asset.ips && r.cnames == asset.cnames
            &&& a.any_answer && asset.cnames.len() == 0 ==> r.cnames == a.cnames
            &&& r.resolver_disagreement == a.disagreement
            &&& r.confidence is Some
            &&& r.wildcard_reason is Some <==> r.dns.wildcard()
            &&& r.wildcard_root is Some <==> r.dns.wildcard()
            &&& cdn_of(table, a) is Some ==> r.cdn == cdn_of(table, a)
            &&& cdn_of(table, a) is None ==> r.cdn == asset.cdn
        }),
{
    broadcast use vstd::seq_lib::group_to_multiset_ensures;

    law_verdicts_rest_on_observations(a, sig, infer);
    let s = sorted_items(a.ips);
    <IpAddr as crate::order::Ordered>::lemma_total();
    a.ips.lemma_sort_by_ensures(crate::order::item_order::<IpAddr>());
    assert forall|ip: IpAddr| #[trigger] s.contains(ip) <==> a.ips.contains(ip) by {
        assert(s.contains(ip) <==> s.to_multiset().contains(ip));
        assert(a.ips.contains(ip) <==> a.ips.to_multiset().contains(ip));
    }
}

/// Each way in which resolvers differ on a host is counted once per host: an answer beside
/// NXDOMAIN, a timeout or an error, and more than one set of addresses or of CNAME targets.
pub proof fn law_disagreements_are_counted(c: DnsRuntimeCounters, a: AnswersView)
    requires
        c.answer_vs_nxdomain < usize::MAX,
        c.answer_vs_timeout < usize::MAX,
        c.answer_vs_error < usize::MAX,
        c.distinct_ip_sets < usize::MAX,
        c.distinct_cname_sets < usize::MAX,
    ensures
        ({
            let d = counters_after(c, a);
            &&& d.answer_vs_nxdomain - c.answer_vs_nxdomain == (if a.answer_count > 0
                && a.nxdomain_count > 0 {
                1int
            } else {
                0
            })
            &&& d.answer_vs_timeout - c.answer_vs_timeout == (if a.answer_count > 0
                && a.timeout_count > 0 {
                1int
            } else {
                0
            })
            &&& d.answer_vs_error - c.answer_vs_error == (if a.answer_count > 0 && a.error_count
                > 0 {
                1int
            } else {
                0
            })
            &&& d.distinct_ip_sets - c.distinct_ip_sets == (if a.distinct_ip_sets >= 2 {
                1int
            } else {
                0
            })
            &&& d.distinct_cname_sets - c.distinct_cname_sets == (if a.distinct_cname_sets >= 2 {
                1int
            } else {
                0
            })
            &&& d.probe_queries == c.probe_queries && d.host_queries == c.host_queries
        }),
{
}

/// A host is counted for its own zone and for no other.
pub proof fn law_hosts_count_for_their_zone(
    m: Map<Seq<char>, FlakyStats>,
    zone: Seq<char>,
    other: Seq<char>,
    config: DnsConfig,
    a: AnswersView,
)
    requires
        countable(stats_of(m, zone)),
        other != zone,
    ensures
        ({
            let r = flaky_recorded(m, zone, config, a);
            &&& stats_of(r, other) == stats_of(m, other)
            &&& stats_of(r, zone).total == stats_of(m, zone).total + 1
            &&& stats_of(r, zone).timeouts == stats_of(m, zone).timeouts + (if a.any_timeout
                && !a.any_answer {
                1int
            } else {
                0
            })
            &&& stats_of(m, zone).flagged ==> stats_of(r, zone).flagged
        }),
{
}

} // verus!

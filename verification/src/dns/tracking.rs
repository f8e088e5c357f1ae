//! Running counts that take zones and resolvers out of use.

use vstd::prelude::*;

use crate::dns::answers::{AnswersView, HostAnswers};
use crate::dns::config::Ratio;
use crate::lists::{is_sorted_set, lemma_added, sort_texts, TextMap, UniqueTexts};
use crate::text::texts;

verus! {

/// Outcomes of the hosts of a zone.
#[derive(Debug, Clone, Copy, PartialEq, Eq, Structural)]
pub struct FlakyStats {
    pub timeouts: usize,
    pub total: usize,
    pub flagged: bool,
}

impl Default for FlakyStats {
    fn default() -> (r: Self)
        ensures
            r == (FlakyStats { timeouts: 0, total: 0, flagged: false }),
    {
        FlakyStats { timeouts: 0, total: 0, flagged: false }
    }
}

/// The counts after one more host. A host counts as a timeout when no resolver answered
/// and one timed out. Once there are enough hosts, the zone is flagged when the share of
/// timeouts reaches the threshold.
pub open spec fn flaky_after(
    s: FlakyStats,
    threshold: Ratio,
    min_samples: usize,
    any_answer: bool,
    any_timeout: bool,
) -> FlakyStats {
    let total = s.total + 1;
    let timeouts = s.timeouts + (if !any_answer && any_timeout {
        1int
    } else {
        0int
    });
    FlakyStats {
        timeouts: timeouts as usize,
        total: total as usize,
        flagged: s.flagged || (min_samples > 0 && total >= min_samples && threshold.reached_by(
            timeouts as nat,
            total as nat,
        )),
    }
}

/// Counts one more host of a zone.
pub fn apply_flaky_sample(
    entry: &mut FlakyStats,
    threshold: Ratio,
    min_samples: usize,
    any_answer: bool,
    any_timeout: bool,
)
    requires
        old(entry).total < usize::MAX,
        old(entry).timeouts < usize::MAX,
    ensures
        *final(entry) == flaky_after(*old(entry), threshold, min_samples, any_answer, any_timeout),
{
    entry.total += 1;
    if !any_answer && any_timeout {
        entry.timeouts += 1;
    }
    if !entry.flagged && entry.total >= min_samples && min_samples > 0 && threshold.is_reached_by(
        entry.timeouts,
        entry.total,
    ) {
        entry.flagged = true;
    }
}

/// Outcomes of the queries to a resolver.
#[derive(Debug, Clone, Copy, PartialEq, Eq, Structural)]
pub struct ResolverHealthCounters {
    pub total: usize,
    pub timeouts: usize,
    pub flagged: bool,
}

impl Default for ResolverHealthCounters {
    fn default() -> (r: Self)
        ensures
            r == (ResolverHealthCounters { total: 0, timeouts: 0, flagged: false }),
    {
        ResolverHealthCounters { total: 0, timeouts: 0, flagged: false }
    }
}

/// The counts after one more query. A query counts as a timeout when it brought neither
/// an answer nor NXDOMAIN and timed out. Once there are enough queries, the resolver is
/// flagged when the share of timeouts exceeds a threshold below one.
pub open spec fn health_after(
    h: ResolverHealthCounters,
    threshold: Ratio,
    min_samples: usize,
    any_answer: bool,
    any_timeout: bool,
    all_nxdomain: bool,
) -> ResolverHealthCounters {
    let total = h.total + 1;
    let timeouts = h.timeouts + (if any_timeout && !any_answer && !all_nxdomain {
        1int
    } else {
        0int
    });
    ResolverHealthCounters {
        total: total as usize,
        timeouts: timeouts as usize,
        flagged: h.flagged || (min_samples > 0 && threshold.below_one() && total >= min_samples
            && threshold.exceeded_by(timeouts as nat, total as nat)),
    }
}

/// Counts one more query to a resolver.
pub fn apply_resolver_health_sample(
    h: &mut ResolverHealthCounters,
    threshold: Ratio,
    min_samples: usize,
    any_answer: bool,
    any_timeout: bool,
    all_nxdomain: bool,
)
    requires
        old(h).total < usize::MAX,
        old(h).timeouts < usize::MAX,
    ensures
        *final(h) == health_after(
            *old(h),
            threshold,
            min_samples,
            any_answer,
            any_timeout,
            all_nxdomain,
        ),
{
    h.total += 1;
    if any_timeout && !any_answer && !all_nxdomain {
        h.timeouts += 1;
    }
    if h.flagged || min_samples == 0 || threshold.num >= threshold.den || h.total < min_samples {
        return;
    }
    if threshold.is_exceeded_by(h.timeouts, h.total) {
        h.flagged = true;
    }
}

/// The counts of the zones that were asked.
pub struct FlakyTable {
    zones: TextMap<FlakyStats>,
}

impl View for FlakyTable {
    type V = Map<Seq<char>, FlakyStats>;

    closed spec fn view(&self) -> Map<Seq<char>, FlakyStats> {
        self.zones@
    }
}

/// The counts of a zone.
pub open spec fn stats_of(m: Map<Seq<char>, FlakyStats>, zone: Seq<char>) -> FlakyStats {
    if m.contains_key(zone) {
        m[zone]
    } else {
        FlakyStats { timeouts: 0, total: 0, flagged: false }
    }
}

/// Whether counts can still grow.
pub open spec fn countable(s: FlakyStats) -> bool {
    s.total < usize::MAX && s.timeouts < usize::MAX
}

impl FlakyTable {
    pub closed spec fn wf(&self) -> bool {
        self.zones.wf()
    }

    /// Nothing was counted.
    pub fn new() -> (r: Self)
        ensures
            r.wf(),
            r@ == Map::<Seq<char>, FlakyStats>::empty(),
    {
        FlakyTable { zones: TextMap::new() }
    }

    /// Tests whether a zone is flagged.
    pub fn is_flagged(&self, zone: &str) -> (r: bool)
        ensures
            r == stats_of(self@, zone@).flagged,
    {
        match self.zones.get(zone) {
            Some(s) => s.flagged,
            None => false,
        }
    }

    /// Counts one more host of a zone. Counts that are full stay as they are.
    pub fn record(
        &mut self,
        zone: &str,
        answers: &HostAnswers,
        threshold: Ratio,
        min_samples: usize,
    )
        requires
            old(self).wf(),
        ensures
            final(self).wf(),
            final(self)@ == (if countable(stats_of(old(self)@, zone@)) {
                old(self)@.insert(
                    zone@,
                    flaky_after(
                        stats_of(old(self)@, zone@),
                        threshold,
                        min_samples,
                        answers@.any_answer,
                        answers@.any_timeout,
                    ),
                )
            } else {
                old(self)@
            }),
    {
        let mut entry = match self.zones.get(zone) {
            Some(s) => *s,
            None => FlakyStats::default(),
        };
        if entry.total < usize::MAX && entry.timeouts < usize::MAX {
            apply_flaky_sample(
                &mut entry,
                threshold,
                min_samples,
                answers.any_answer,
                answers.any_timeout,
            );
            self.zones.insert(zone.to_string(), entry);
        }
    }

    /// Whether a list holds the flagged zones, sorted.
    pub open spec fn lists_flagged(&self, v: Seq<Seq<char>>) -> bool {
        &&& is_sorted_set(v)
        &&& forall|z: Seq<char>| #[trigger] v.contains(z) <==> stats_of(self@, z).flagged
    }

    /// The flagged zones, sorted.
    pub fn flagged_zones(&self) -> (r: Vec<String>)
        requires
            self.wf(),
        ensures
            self.lists_flagged(texts(r@)),
    {
        let mut out = UniqueTexts::new();
        let ghost names = self.zones.order();
        let mut i: usize = 0;
        while i < self.zones.len()
            invariant
                self.wf(),
                names == self.zones.order(),
                i <= names.len(),
                out.wf(),
                forall|z: Seq<char>| #[trigger]
                    out@.contains(z) <==> stats_of(self@, z).flagged && exists|j: int|
                        0 <= j < i && #[trigger] names[j] == z,
            decreases names.len() - i,
        {
            let ghost before = out@;
            let name = self.zones.name(i);
            let flagged = self.is_flagged(name.as_str());
            if flagged {
                proof {
                    lemma_added(out@, name@);
                }
                out.add(name.clone());
            }
            assert forall|z: Seq<char>| #[trigger] out@.contains(z) <==> stats_of(self@, z).flagged
                && exists|j: int| 0 <= j < i + 1 && #[trigger] names[j] == z by {
                assert(out@.contains(z) <==> before.contains(z) || (flagged && z
                    == names[i as int]));
            }
            i += 1;
        }
        proof {
            self.zones.lemma_order();
            crate::lists::lemma_sorted_texts(out@);
            assert forall|z: Seq<char>| #[trigger] out@.contains(z) <==> stats_of(
                self@,
                z,
            ).flagged by {
                if stats_of(self@, z).flagged {
                    assert(self.zones@.contains_key(z));
                    let j = choose|j: int| 0 <= j < names.len() && names[j] == z;
                    assert(names[j] == z);
                }
            }
        }
        sort_texts(&out.into_vec())
    }
}

/// A flag stays, whatever comes later.
pub proof fn law_flags_are_sticky(
    s: FlakyStats,
    h: ResolverHealthCounters,
    threshold: Ratio,
    min_samples: usize,
    a: AnswersView,
)
    ensures
        s.flagged ==> flaky_after(
            s,
            threshold,
            min_samples,
            a.any_answer,
            a.any_timeout,
        ).flagged,
        h.flagged ==> health_after(
            h,
            threshold,
            min_samples,
            a.any_answer,
            a.any_timeout,
            a.all_nxdomain,
        ).flagged,
{
}

/// No minimum of samples disables both rules, and a threshold of one or more disables
/// the rule for resolvers.
pub proof fn law_disabled_rules_never_flag(
    s: FlakyStats,
    h: ResolverHealthCounters,
    threshold: Ratio,
    min_samples: usize,
    a: AnswersView,
)
    ensures
        min_samples == 0 && !s.flagged ==> !flaky_after(
            s,
            threshold,
            min_samples,
            a.any_answer,
            a.any_timeout,
        ).flagged,
        (min_samples == 0 || threshold.num >= threshold.den) && !h.flagged ==> !health_after(
            h,
            threshold,
            min_samples,
            a.any_answer,
            a.any_timeout,
            a.all_nxdomain,
        ).flagged,
{
}

/// An answer never flags a zone whose share of timeouts is below the threshold.
pub proof fn law_answers_do_not_flag_zones(
    s: FlakyStats,
    threshold: Ratio,
    min_samples: usize,
    any_timeout: bool,
)
    requires
        !s.flagged,
        !threshold.reached_by(s.timeouts as nat, s.total as nat),
    ensures
        !flaky_after(s, threshold, min_samples, true, any_timeout).flagged,
{
    assert(threshold.num * (s.total + 1) >= threshold.num * s.total) by (nonlinear_arith)
        requires
            threshold.num >= 0,
    ;
}

/// One more host is counted once, as a timeout exactly if no resolver answered and one timed
/// out. A zone is flagged exactly from the first time on that it has enough hosts and the
/// share of timeouts among them is no smaller than the threshold.
pub proof fn law_zones_are_flagged_by_their_share(
    s: FlakyStats,
    threshold: Ratio,
    min_samples: usize,
    any_answer: bool,
    any_timeout: bool,
)
    requires
        countable(s),
    ensures
        ({
            let r = flaky_after(s, threshold, min_samples, any_answer, any_timeout);
            &&& r.total == s.total + 1
            &&& any_answer ==> r.timeouts == s.timeouts
            &&& !any_timeout ==> r.timeouts == s.timeouts
            &&& any_timeout && !any_answer ==> r.timeouts == s.timeouts + 1
            &&& r.total < min_samples ==> r.flagged == s.flagged
            &&& min_samples == 0 ==> r.flagged == s.flagged
            &&& !s.flagged && r.flagged ==> r.timeouts * threshold.den >= threshold.num * r.total
            &&& 0 < min_samples <= r.total && r.timeouts * threshold.den >= threshold.num * r.total
                ==> r.flagged
        }),
{
}

/// One more query is counted once, as a timeout exactly if it timed out without an answer or
/// NXDOMAIN. A resolver is flagged exactly from the first time on that it has enough queries
/// and the share of timeouts among them is larger than the threshold.
pub proof fn law_resolvers_are_flagged_by_their_share(
    h: ResolverHealthCounters,
    threshold: Ratio,
    min_samples: usize,
    a: AnswersView,
)
    requires
        h.total < usize::MAX,
        h.timeouts < usize::MAX,
    ensures
        ({
            let r = health_after(
                h,
                threshold,
                min_samples,
                a.any_answer,
                a.any_timeout,
                a.all_nxdomain,
            );
            &&& r.total == h.total + 1
            &&& a.any_answer || a.all_nxdomain || !a.any_timeout ==> r.timeouts == h.timeouts
            &&& a.any_timeout && !a.any_answer && !a.all_nxdomain ==> r.timeouts == h.timeouts + 1
            &&& r.total < min_samples ==> r.flagged == h.flagged
            &&& !h.flagged && r.flagged ==> r.timeouts * threshold.den > threshold.num * r.total
                && threshold.num < threshold.den
            &&& 0 < min_samples <= r.total && threshold.num < threshold.den && r.timeouts
                * threshold.den > threshold.num * r.total ==> r.flagged
        }),
{
}

} // verus!

//! The verdict on a host.

use vstd::prelude::*;

use crate::cdn::{
    common_provider, dominant_provider, lookup_cname_terminal, terminal_provider, CdnTable, CdnView,
};
use crate::dns::answers::{AnswersView, HostAnswers};
use crate::ip::{copy_ips, holds_ip, IpAddr};
use crate::lists::{common, holds, inside, lemma_tally_first, lemma_tally_some, tally};
use crate::model::{Confidence, DnsStatus, WildcardReason};
use crate::text::{concat, copy_texts, opt_literal, opt_text, texts};

verus! {

/// What random probes of a zone brought.
#[derive(Debug, Clone)]
pub struct WildcardSignature {
    pub root: String,
    /// Addresses, each once.
    pub ips: Vec<IpAddr>,
    /// CNAME targets, each once.
    pub cnames: Vec<String>,
}

/// What a signature says.
pub struct SignatureView {
    pub root: Seq<char>,
    pub ips: Seq<IpAddr>,
    pub cnames: Seq<Seq<char>>,
}

impl SignatureView {
    /// Whether nothing is listed twice.
    pub open spec fn wf(self) -> bool {
        self.ips.no_duplicates() && self.cnames.no_duplicates()
    }
}

impl View for WildcardSignature {
    type V = SignatureView;

    open spec fn view(&self) -> SignatureView {
        SignatureView { root: self.root@, ips: self.ips@, cnames: texts(self.cnames@) }
    }
}

impl WildcardSignature {
    /// A copy of the signature.
    pub fn duplicate(&self) -> (r: Self)
        ensures
            r@ == self@,
    {
        WildcardSignature {
            root: self.root.clone(),
            ips: copy_ips(&self.ips),
            cnames: copy_texts(&self.cnames),
        }
    }
}

/// What an optional signature says.
pub open spec fn opt_signature(o: Option<WildcardSignature>) -> Option<SignatureView> {
    match o {
        Some(s) => Some(s@),
        None => None,
    }
}

/// What a reference to an optional signature says.
pub open spec fn opt_signature_ref(o: Option<&WildcardSignature>) -> Option<SignatureView> {
    match o {
        Some(s) => Some(s@),
        None => None,
    }
}

/// A verdict with the evidence behind it.
#[derive(Debug, Clone, PartialEq, Eq)]
pub struct DnsDecision {
    pub status: DnsStatus,
    pub wildcard_root: Option<String>,
    pub wildcard_reason: Option<WildcardReason>,
    pub wildcard_cname: Option<String>,
    pub wildcard_ip_overlap_count: usize,
    pub wildcard_cname_overlap_count: usize,
    pub wildcard_host_ip_count: usize,
    pub wildcard_signature_ip_count: usize,
    pub wildcard_signature_cname_count: usize,
}

/// What a verdict says.
pub struct DecisionView {
    pub status: DnsStatus,
    pub wildcard_root: Option<Seq<char>>,
    pub wildcard_reason: Option<WildcardReason>,
    pub wildcard_cname: Option<Seq<char>>,
    pub ip_overlap: int,
    pub cname_overlap: int,
    pub host_ips: int,
    pub signature_ips: int,
    pub signature_cnames: int,
}

impl View for DnsDecision {
    type V = DecisionView;

    open spec fn view(&self) -> DecisionView {
        DecisionView {
            status: self.status,
            wildcard_root: opt_text(self.wildcard_root),
            wildcard_reason: self.wildcard_reason,
            wildcard_cname: opt_text(self.wildcard_cname),
            ip_overlap: self.wildcard_ip_overlap_count as int,
            cname_overlap: self.wildcard_cname_overlap_count as int,
            host_ips: self.wildcard_host_ip_count as int,
            signature_ips: self.wildcard_signature_ip_count as int,
            signature_cnames: self.wildcard_signature_cname_count as int,
        }
    }
}

/// A verdict without wildcard evidence.
pub open spec fn plain_decision(status: DnsStatus) -> DecisionView {
    DecisionView {
        status,
        wildcard_root: None,
        wildcard_reason: None,
        wildcard_cname: None,
        ip_overlap: 0,
        cname_overlap: 0,
        host_ips: 0,
        signature_ips: 0,
        signature_cnames: 0,
    }
}

/// A wildcard verdict.
pub open spec fn wildcard_decision(
    status: DnsStatus,
    sig: SignatureView,
    reason: WildcardReason,
    a: AnswersView,
    ip_overlap: int,
    cname_overlap: int,
) -> DecisionView {
    DecisionView {
        status,
        wildcard_root: Some("*."@ + sig.root),
        wildcard_reason: Some(reason),
        wildcard_cname: if reason is CnameMatch {
            first_shared(a.cnames, sig.cnames)
        } else {
            None
        },
        ip_overlap,
        cname_overlap,
        host_ips: a.ips.len() as int,
        signature_ips: sig.ips.len() as int,
        signature_cnames: sig.cnames.len() as int,
    }
}

impl DnsDecision {
    fn plain(status: DnsStatus) -> (r: Self)
        ensures
            r@ == plain_decision(status),
    {
        DnsDecision {
            status,
            wildcard_root: None,
            wildcard_reason: None,
            wildcard_cname: None,
            wildcard_ip_overlap_count: 0,
            wildcard_cname_overlap_count: 0,
            wildcard_host_ip_count: 0,
            wildcard_signature_ip_count: 0,
            wildcard_signature_cname_count: 0,
        }
    }

    fn wildcard(
        status: DnsStatus,
        sig: &WildcardSignature,
        reason: WildcardReason,
        answers: &HostAnswers,
        ip_overlap_count: usize,
        cname_overlap_count: usize,
    ) -> (r: Self)
        ensures
            r@ == wildcard_decision(
                status,
                sig@,
                reason,
                answers@,
                ip_overlap_count as int,
                cname_overlap_count as int,
            ),
    {
        let cname = if reason == WildcardReason::CnameMatch {
            find_shared_cname(answers, sig)
        } else {
            None
        };
        DnsDecision {
            status,
            wildcard_root: Some(concat("*.", sig.root.as_str())),
            wildcard_reason: Some(reason),
            wildcard_cname: cname,
            wildcard_ip_overlap_count: ip_overlap_count,
            wildcard_cname_overlap_count: cname_overlap_count,
            wildcard_host_ip_count: answers.ips.len(),
            wildcard_signature_ip_count: sig.ips.len(),
            wildcard_signature_cname_count: sig.cnames.len(),
        }
    }
}

/// The first of some names that is known.
pub open spec fn first_shared(v: Seq<Seq<char>>, known: Seq<Seq<char>>) -> Option<Seq<char>>
    decreases v.len(),
{
    if v.len() == 0 {
        None
    } else if known.contains(v[0]) {
        Some(v[0])
    } else {
        first_shared(v.skip(1), known)
    }
}

fn find_shared_cname(answers: &HostAnswers, sig: &WildcardSignature) -> (r: Option<String>)
    ensures
        opt_text(r) == first_shared(answers@.cnames, sig@.cnames),
{
    let ghost names = answers@.cnames;
    let ghost known = sig@.cnames;
    let mut i: usize = 0;
    assert(names.skip(0) =~= names);
    while i < answers.cnames.len()
        invariant
            i <= answers.cnames@.len(),
            names == texts(answers.cnames@),
            known == texts(sig.cnames@),
            first_shared(names, known) == first_shared(names.skip(i as int), known),
        decreases answers.cnames.len() - i,
    {
        assert(names.skip(i as int)[0] == answers.cnames@[i as int]@);
        assert(names.skip(i as int).skip(1) =~= names.skip(i + 1));
        if holds(&sig.cnames, answers.cnames[i].as_str()) {
            return Some(answers.cnames[i].clone());
        }
        i += 1;
    }
    None
}

/// How many CNAME targets of a host the signature knows.
pub open spec fn shared_cnames(a: AnswersView, sig: SignatureView) -> nat {
    tally(a.cnames, |c: Seq<char>| sig.cnames.contains(c))
}

/// How many addresses of a host the signature knows.
pub open spec fn shared_ips(a: AnswersView, sig: SignatureView) -> nat {
    tally(a.ips, |ip: IpAddr| sig.ips.contains(ip))
}

/// The verdict on answers, held against a signature. A shared CNAME target decides;
/// else all, some or none of the addresses are shared.
pub open spec fn against_signature(a: AnswersView, sig: SignatureView) -> DecisionView {
    if shared_cnames(a, sig) > 0 {
        wildcard_decision(
            DnsStatus::WildcardCname,
            sig,
            WildcardReason::CnameMatch,
            a,
            0,
            shared_cnames(a, sig) as int,
        )
    } else if shared_ips(a, sig) == 0 {
        plain_decision(DnsStatus::Resolved)
    } else {
        wildcard_decision(
            if shared_ips(a, sig) == a.ips.len() {
                DnsStatus::WildcardIp
            } else {
                DnsStatus::MixedWildcard
            },
            sig,
            WildcardReason::IpOverlap,
            a,
            shared_ips(a, sig) as int,
            0,
        )
    }
}

/// The verdict on a host, from the answers and from the signature of its zones.
///
/// - Without answers, a timeout below a wildcard is taken for the wildcard if that is
///   allowed; else NXDOMAIN, timeout and error decide in this order.
/// - With answers, a match with the signature decides.
/// - Otherwise the host is `Shaky` if resolvers disagreed, and `Resolved` if not.
pub open spec fn verdict(a: AnswersView, sig: Option<SignatureView>, infer: bool) -> DecisionView {
    if !a.any_answer {
        if infer && a.any_timeout && sig is Some {
            wildcard_decision(
                DnsStatus::WildcardIp,
                sig->0,
                WildcardReason::TimeoutInferred,
                a,
                0,
                0,
            )
        } else if a.all_nxdomain {
            plain_decision(DnsStatus::Unresolved)
        } else if a.any_timeout {
            plain_decision(DnsStatus::Timeout)
        } else if a.any_error {
            plain_decision(DnsStatus::Error)
        } else {
            plain_decision(DnsStatus::Unresolved)
        }
    } else if sig is Some && against_signature(a, sig->0).status.wildcard() {
        against_signature(a, sig->0)
    } else if a.disagreement {
        plain_decision(DnsStatus::Shaky)
    } else {
        plain_decision(DnsStatus::Resolved)
    }
}

fn count_shared_cnames(answers: &HostAnswers, sig: &WildcardSignature) -> (r: usize)
    ensures
        r == shared_cnames(answers@, sig@),
{
    let ghost names = answers@.cnames;
    let ghost p = |c: Seq<char>| sig@.cnames.contains(c);
    let mut n: usize = 0;
    let mut i: usize = 0;
    assert(names.take(0) =~= Seq::empty());
    while i < answers.cnames.len()
        invariant
            i <= answers.cnames@.len(),
            names == texts(answers.cnames@),
            p == (|c: Seq<char>| sig@.cnames.contains(c)),
            n == tally(names.take(i as int), p),
            n <= i,
        decreases answers.cnames.len() - i,
    {
        assert(names.take(i + 1).drop_last() =~= names.take(i as int));
        assert(names.take(i + 1).last() == answers.cnames@[i as int]@);
        if holds(&sig.cnames, answers.cnames[i].as_str()) {
            n += 1;
        }
        i += 1;
    }
    assert(names.take(i as int) =~= names);
    n
}

fn count_shared_ips(answers: &HostAnswers, sig: &WildcardSignature) -> (r: usize)
    ensures
        r == shared_ips(answers@, sig@),
{
    let ghost ips = answers@.ips;
    let ghost p = |ip: IpAddr| sig@.ips.contains(ip);
    let mut n: usize = 0;
    let mut i: usize = 0;
    assert(ips.take(0) =~= Seq::empty());
    while i < answers.ips.len()
        invariant
            i <= answers.ips@.len(),
            ips == answers.ips@,
            p == (|ip: IpAddr| sig@.ips.contains(ip)),
            n == tally(ips.take(i as int), p),
            n <= i,
        decreases answers.ips.len() - i,
    {
        assert(ips.take(i + 1).drop_last() =~= ips.take(i as int));
        if holds_ip(&sig.ips, answers.ips[i]) {
            n += 1;
        }
        i += 1;
    }
    assert(ips.take(i as int) =~= ips);
    n
}

/// Holds answers against a signature.
pub fn classify_against_sig_decision(answers: &HostAnswers, sig: &WildcardSignature) -> (r:
    DnsDecision)
    requires
        answers@.wf(),
        sig@.wf(),
    ensures
        r@ == against_signature(answers@, sig@),
{
    let cname_hits: usize = count_shared_cnames(answers, sig);
    if cname_hits > 0 {
        return DnsDecision::wildcard(
            DnsStatus::WildcardCname,
            sig,
            WildcardReason::CnameMatch,
            answers,
            0,
            cname_hits,
        );
    }
    let host_hits: usize = count_shared_ips(answers, sig);
    if host_hits == 0 {
        return DnsDecision::plain(DnsStatus::Resolved);
    }
    let status = if host_hits == answers.ips.len() {
        DnsStatus::WildcardIp
    } else {
        DnsStatus::MixedWildcard
    };
    DnsDecision::wildcard(status, sig, WildcardReason::IpOverlap, answers, host_hits, 0)
}

/// The status of answers, held against a signature.
pub fn classify_against_sig(answers: &HostAnswers, sig: &WildcardSignature) -> (r: DnsStatus)
    requires
        answers@.wf(),
        sig@.wf(),
    ensures
        r == against_signature(answers@, sig@).status,
{
    classify_against_sig_decision(answers, sig).status
}

/// Decides on a host from the merged answers and from the signature of its zones.
pub fn final_decision(
    answers: &HostAnswers,
    sig: Option<&WildcardSignature>,
    infer_wildcard_on_timeout: bool,
) -> (r: DnsDecision)
    requires
        answers@.wf(),
        sig matches Some(s) ==> s@.wf(),
    ensures
        r@ == verdict(answers@, opt_signature_ref(sig), infer_wildcard_on_timeout),
{
    if !answers.any_answer {
        if infer_wildcard_on_timeout && answers.any_timeout {
            if let Some(s) = sig {
                return DnsDecision::wildcard(
                    DnsStatus::WildcardIp,
                    s,
                    WildcardReason::TimeoutInferred,
                    answers,
                    0,
                    0,
                );
            }
        }
        let status = if answers.all_nxdomain {
            DnsStatus::Unresolved
        } else if answers.any_timeout {
            DnsStatus::Timeout
        } else if answers.any_error {
            DnsStatus::Error
        } else {
            DnsStatus::Unresolved
        };
        return DnsDecision::plain(status);
    }
    if let Some(s) = sig {
        let decision = classify_against_sig_decision(answers, s);
        if decision.status.is_wildcard() {
            return decision;
        }
    }
    if answers.disagreement {
        DnsDecision::plain(DnsStatus::Shaky)
    } else {
        DnsDecision::plain(DnsStatus::Resolved)
    }
}

/// The status of a host from the merged answers and from the signature of its zones.
pub fn final_status(
    answers: &HostAnswers,
    sig: Option<&WildcardSignature>,
    infer_wildcard_on_timeout: bool,
) -> (r: DnsStatus)
    requires
        answers@.wf(),
        sig matches Some(s) ==> s@.wf(),
    ensures
        r == verdict(answers@, opt_signature_ref(sig), infer_wildcard_on_timeout).status,
{
    final_decision(answers, sig, infer_wildcard_on_timeout).status
}

// ---------------------------------------------------------------------------
// Confidence

/// The confidence in a verdict, in hundredths, where it is a whole number of them.
pub open spec fn fixed_confidence(d: DecisionView, a: AnswersView, cdn_tagged: bool) -> nat {
    match d.status {
        DnsStatus::Resolved => 90 + (if a.answer_count >= 2 {
            5nat
        } else {
            0nat
        }) + (if cdn_tagged {
            5nat
        } else {
            0nat
        }),
        DnsStatus::Unresolved => if a.disagreement {
            50
        } else {
            90
        },
        DnsStatus::WildcardIp => 60,
        DnsStatus::WildcardCname => 95,
        DnsStatus::MixedWildcard => 50,
        DnsStatus::Shaky => 30,
        DnsStatus::Timeout => 10,
        DnsStatus::Error => 0,
        DnsStatus::Unknown => 0,
    }
}

/// Whether the confidence in a verdict depends on how many addresses are shared.
pub open spec fn scaled(d: DecisionView) -> bool {
    d.status is WildcardIp && d.wildcard_reason != Some(WildcardReason::TimeoutInferred)
}

/// The number of addresses of which some are shared; at least one.
pub open spec fn coverage_base(d: DecisionView) -> int {
    if d.host_ips >= 1 {
        d.host_ips
    } else {
        1
    }
}

/// The shared addresses among them.
pub open spec fn coverage_part(d: DecisionView) -> int {
    if d.ip_overlap >= coverage_base(d) {
        coverage_base(d)
    } else {
        d.ip_overlap
    }
}

/// How sure a verdict is. It is a fixed number of hundredths, or 0.6 and 0.4 times the
/// share of the addresses that the signature knows.
pub open spec fn confidence_in(d: DecisionView, a: AnswersView, cdn_tagged: bool) -> Confidence {
    if scaled(d) {
        Confidence::fraction(
            (3 * coverage_base(d) + 2 * coverage_part(d)) as nat,
            (5 * coverage_base(d)) as nat,
        )
    } else {
        Confidence::fraction(fixed_confidence(d, a, cdn_tagged), 100)
    }
}

/// Rates the confidence in a verdict between zero and one, from the evidence counts,
/// the agreement of resolvers and the CDN tag.
pub fn compute_confidence(decision: &DnsDecision, answers: &HostAnswers, cdn_tagged: bool) -> (r:
    Confidence)
    ensures
        r == confidence_in(decision@, answers@, cdn_tagged),
{
    let hundredths: u8 = match decision.status {
        DnsStatus::Resolved => {
            let mut c: u8 = 90;
            if answers.answer_count >= 2 {
                c += 5;
            }
            if cdn_tagged {
                c += 5;
            }
            c
        },
        DnsStatus::Unresolved => {
            if answers.disagreement {
                50
            } else {
                90
            }
        },
        DnsStatus::WildcardIp => {
            if decision.wildcard_reason == Some(WildcardReason::TimeoutInferred) {
                60
            } else {
                let host: usize = if decision.wildcard_host_ip_count >= 1 {
                    decision.wildcard_host_ip_count
                } else {
                    1
                };
                let part: usize = if decision.wildcard_ip_overlap_count >= host {
                    host
                } else {
                    decision.wildcard_ip_overlap_count
                };
                return Confidence::new(
                    3 * host as u128 + 2 * part as u128,
                    5 * host as u128,
                );
            }
        },
        DnsStatus::WildcardCname => 95,
        DnsStatus::MixedWildcard => 50,
        DnsStatus::Shaky => 30,
        DnsStatus::Timeout => 10,
        DnsStatus::Error => 0,
        DnsStatus::Unknown => 0,
    };
    Confidence::hundredths(hundredths)
}

// ---------------------------------------------------------------------------
// CDN

/// The CDN of a host: by its addresses, else by its final CNAME target.
pub open spec fn cdn_of(t: CdnView, a: AnswersView) -> Option<Seq<char>> {
    match common_provider(t, a.ips) {
        Some(p) => Some(p),
        None => terminal_provider(a.cnames),
    }
}

/// Detects the CDN of a host: by its addresses, else by its final CNAME target.
pub fn detect_cdn(table: &CdnTable, answers: &HostAnswers) -> (r: Option<&'static str>)
    requires
        table@.wf(),
    ensures
        opt_literal(r) == cdn_of(table@, answers@),
{
    match dominant_provider(table, &answers.ips) {
        Some(p) => Some(p),
        None => lookup_cname_terminal(&answers.cnames),
    }
}

/// The verdict once a CDN is known: shared addresses alone no longer make a wildcard.
pub open spec fn downgraded(d: DecisionView, cdn: Option<Seq<char>>) -> DecisionView {
    if cdn is Some && d.wildcard_reason == Some(WildcardReason::IpOverlap)
        && d.status is WildcardIp {
        DecisionView { status: DnsStatus::MixedWildcard, ..d }
    } else {
        d
    }
}

/// Downgrades a wildcard verdict that rests on shared addresses alone when the host is
/// behind a CDN. A shared CNAME target is stronger and is kept.
pub fn apply_cdn_downgrade(decision: &mut DnsDecision, cdn: Option<&'static str>)
    ensures
        final(decision)@ == downgraded(old(decision)@, opt_literal(cdn)),
{
    if cdn.is_some() && decision.wildcard_reason == Some(WildcardReason::IpOverlap)
        && decision.status == DnsStatus::WildcardIp {
        decision.status = DnsStatus::MixedWildcard;
    }
}

// ---------------------------------------------------------------------------
// Hijacking

/// A probe that did not come back in time.
#[derive(Debug, Clone, Copy, PartialEq, Eq, Structural)]
pub struct Elapsed;

/// Tests whether a probe of a name under `.invalid` shows that a resolver rewrites
/// NXDOMAIN: only an answer does. A timeout or an error does not.
pub fn is_hijacked_outcome(outcome: &Result<HostAnswers, Elapsed>) -> (r: bool)
    ensures
        r == (outcome is Ok && outcome->Ok_0.any_answer),
{
    match outcome {
        Ok(answers) => answers.any_answer,
        Err(_) => false,
    }
}

// ---------------------------------------------------------------------------
// Laws

/// The matching CNAME target is one of the host that the signature knows, and is given
/// exactly where the verdict rests on one.
pub proof fn law_matching_cname_is_shared(a: AnswersView, sig: SignatureView)
    ensures
        against_signature(a, sig).wildcard_reason == Some(WildcardReason::CnameMatch)
            <==> against_signature(a, sig).wildcard_cname is Some,
        against_signature(a, sig).wildcard_cname matches Some(c) ==> a.cnames.contains(c)
            && sig.cnames.contains(c),
{
    lemma_first_shared(a.cnames, sig.cnames);
}

proof fn lemma_first_shared(v: Seq<Seq<char>>, known: Seq<Seq<char>>)
    ensures
        first_shared(v, known) matches Some(c) ==> v.contains(c) && known.contains(c),
        first_shared(v, known) is Some <==> tally(v, |c: Seq<char>| known.contains(c)) > 0,
    decreases v.len(),
{
    let p = |c: Seq<char>| known.contains(c);
    if v.len() > 0 {
        let rest = v.skip(1);
        lemma_first_shared(rest, known);
        lemma_tally_first(v, p);
        assert(v.contains(v[0]));
        if first_shared(rest, known) is Some {
            let c = first_shared(rest, known)->0;
            let i = choose|i: int| 0 <= i < rest.len() && rest[i] == c;
            assert(v[i + 1] == c);
        }
    }
}

/// The shared addresses are counted as the two sets have them in common.
pub proof fn law_overlap_is_what_is_common(a: AnswersView, sig: SignatureView)
    requires
        a.wf(),
    ensures
        shared_ips(a, sig) == a.ips.to_set().intersect(sig.ips.to_set()).len(),
{
    lemma_common(a.ips, sig.ips);
}

proof fn lemma_common(v: Seq<IpAddr>, known: Seq<IpAddr>)
    requires
        v.no_duplicates(),
    ensures
        tally(v, |ip: IpAddr| known.contains(ip)) == v.to_set().intersect(known.to_set()).len(),
        v.to_set().intersect(known.to_set()).finite(),
    decreases v.len(),
{
    let k = known.to_set();
    if v.len() == 0 {
        assert(v.to_set().intersect(k) =~= Set::empty());
    } else {
        let w = v.drop_last();
        let x = v.last();
        lemma_common(w, known);
        assert(!w.contains(x));
        assert(v =~= w.push(x));
        assert forall|y: IpAddr| v.contains(y) <==> w.contains(y) || y == x by {
            crate::lists::lemma_push_contains(w, x, y);
        }
        if known.contains(x) {
            assert(v.to_set().intersect(k) =~= w.to_set().intersect(k).insert(x));
        } else {
            assert(v.to_set().intersect(k) =~= w.to_set().intersect(k));
        }
    }
}

/// A match with the signature decides, whether or not resolvers disagreed.
pub proof fn law_wildcard_wins_over_disagreement(
    a: AnswersView,
    b: AnswersView,
    sig: SignatureView,
    infer: bool,
)
    requires
        a.any_answer,
        against_signature(a, sig).status.wildcard(),
        b == (AnswersView { disagreement: b.disagreement, ..a }),
    ensures
        verdict(a, Some(sig), infer).status.wildcard(),
        verdict(a, Some(sig), infer) == verdict(b, Some(sig), infer),
{
    assert(shared_cnames(a, sig) == shared_cnames(b, sig));
    assert(shared_ips(a, sig) == shared_ips(b, sig));
    assert(against_signature(a, sig) == against_signature(b, sig));
}

/// `Shaky` and `Resolved` tell whether resolvers disagreed.
pub proof fn law_shaky_means_disagreement(a: AnswersView, sig: Option<SignatureView>, infer: bool)
    ensures
        verdict(a, sig, infer).status is Shaky ==> a.any_answer && a.disagreement,
        verdict(a, sig, infer).status is Resolved ==> a.any_answer && !a.disagreement,
{
}

/// Without inference, every wildcard verdict rests on an observed answer.
pub proof fn law_strict_verdicts_are_observed(a: AnswersView, sig: Option<SignatureView>)
    ensures
        verdict(a, sig, false).status.wildcard() ==> a.any_answer && sig is Some && (shared_cnames(
            a,
            sig->0,
        ) > 0 || shared_ips(a, sig->0) > 0),
        verdict(a, sig, false).wildcard_reason != Some(WildcardReason::TimeoutInferred),
{
}

/// A wildcard verdict names the root and the reason, and no other verdict does.
pub proof fn law_wildcard_verdicts_are_explained(
    a: AnswersView,
    sig: Option<SignatureView>,
    infer: bool,
)
    ensures
        verdict(a, sig, infer).status.wildcard() <==> verdict(a, sig, infer).wildcard_reason is Some,
        verdict(a, sig, infer).status.wildcard() ==> sig is Some && verdict(
            a,
            sig,
            infer,
        ).wildcard_root == Some("*."@ + sig->0.root),
        !verdict(a, sig, infer).status.wildcard() ==> verdict(a, sig, infer).wildcard_root is None,
{
}

/// The downgrade keeps the evidence, is done once, and leaves every other verdict
/// alone.
pub proof fn law_downgrade_keeps_evidence(d: DecisionView, cdn: Option<Seq<char>>)
    ensures
        downgraded(d, cdn) == (DecisionView { status: downgraded(d, cdn).status, ..d }),
        downgraded(downgraded(d, cdn), cdn) == downgraded(d, cdn),
        d.wildcard_reason == Some(WildcardReason::CnameMatch) ==> downgraded(d, cdn) == d,
        downgraded(d, None) == d,
{
}

/// A host with a `Resolved` verdict has a confidence of at least nine tenths.
pub proof fn law_resolved_is_certain(d: DecisionView, a: AnswersView, cdn_tagged: bool)
    requires
        d.status is Resolved,
    ensures
        confidence_in(d, a, cdn_tagged).at_least(90),
{
    Confidence::lemma_fraction(fixed_confidence(d, a, cdn_tagged), 100);
}

/// The more of a host's addresses the signature shares, the surer the verdict.
pub proof fn law_confidence_grows_with_coverage(
    d1: DecisionView,
    d2: DecisionView,
    a: AnswersView,
    cdn_tagged: bool,
)
    requires
        scaled(d1),
        scaled(d2),
        d1.host_ips == d2.host_ips <= usize::MAX,
        0 <= d1.ip_overlap <= d2.ip_overlap,
    ensures
        confidence_in(d1, a, cdn_tagged).den() == confidence_in(d2, a, cdn_tagged).den(),
        confidence_in(d1, a, cdn_tagged).num() <= confidence_in(d2, a, cdn_tagged).num(),
{
    let base = coverage_base(d1);
    Confidence::lemma_fraction((3 * base + 2 * coverage_part(d1)) as nat, (5 * base) as nat);
    Confidence::lemma_fraction((3 * base + 2 * coverage_part(d2)) as nat, (5 * base) as nat);
}

/// Whether answers below a wildcard show the wildcard: a CNAME target or an address of the
/// host is one that random names have.
pub open spec fn shows_wildcard(a: AnswersView, sig: Option<SignatureView>) -> bool {
    sig matches Some(s) && (common(a.cnames, s.cnames) || common(a.ips, s.ips))
}

proof fn lemma_shared(a: AnswersView, sig: SignatureView)
    ensures
        shared_cnames(a, sig) > 0 <==> common(a.cnames, sig.cnames),
        shared_ips(a, sig) > 0 <==> common(a.ips, sig.ips),
        shared_ips(a, sig) == a.ips.len() <==> inside(a.ips, sig.ips),
{
    lemma_tally_some(a.cnames, |c: Seq<char>| sig.cnames.contains(c));
    lemma_tally_some(a.ips, |ip: IpAddr| sig.ips.contains(ip));
}

/// What each verdict means, in terms of what was observed: a host that answers is resolved
/// or shaky unless it shows the wildcard above it, and a host that does not answer is never
/// resolved. A timeout is taken for a wildcard only where that is allowed and there is one.
pub proof fn law_verdicts_rest_on_observations(
    a: AnswersView,
    sig: Option<SignatureView>,
    infer: bool,
)
    ensures
        ({
            let s = verdict(a, sig, infer).status;
            let inferred = !a.any_answer && infer && a.any_timeout && sig is Some;
            &&& s is Resolved <==> a.any_answer && !shows_wildcard(a, sig) && !a.disagreement
            &&& s is Shaky <==> a.any_answer && !shows_wildcard(a, sig) && a.disagreement
            &&& s is WildcardCname <==> a.any_answer && sig is Some && common(
                a.cnames,
                sig->0.cnames,
            )
            &&& s is WildcardIp || s is MixedWildcard <==> inferred || (a.any_answer
                && shows_wildcard(a, sig) && !common(a.cnames, sig->0.cnames))
            &&& s is WildcardIp <==> inferred || (a.any_answer && shows_wildcard(a, sig) && !common(
                a.cnames,
                sig->0.cnames,
            ) && inside(a.ips, sig->0.ips))
            &&& s is Timeout <==> !a.any_answer && a.any_timeout && !a.all_nxdomain && !inferred
            &&& s is Error <==> !a.any_answer && !a.any_timeout && !a.all_nxdomain && a.any_error
            &&& s is Unresolved <==> !a.any_answer && !inferred && (a.all_nxdomain || (
            !a.any_timeout && !a.any_error))
            &&& verdict(a, sig, infer).wildcard_reason == Some(WildcardReason::TimeoutInferred)
                <==> inferred
        }),
{
    if let Some(s) = sig {
        lemma_shared(a, s);
    }
}

/// The evidence of a wildcard verdict counts what the host and the wildcard have, and what
/// they have in common: CNAME targets where the verdict rests on one, else addresses.
pub proof fn law_evidence_counts_what_is_common(
    a: AnswersView,
    sig: SignatureView,
    infer: bool,
)
    requires
        a.wf(),
    ensures
        ({
            let d = verdict(a, Some(sig), infer);
            &&& d.status.wildcard() ==> d.host_ips == a.ips.len() && d.signature_ips
                == sig.ips.len() && d.signature_cnames == sig.cnames.len()
            &&& d.wildcard_reason == Some(WildcardReason::IpOverlap) ==> d.ip_overlap
                == a.ips.to_set().intersect(sig.ips.to_set()).len() && d.ip_overlap > 0
                && d.cname_overlap == 0
            &&& d.wildcard_reason == Some(WildcardReason::CnameMatch) ==> d.cname_overlap > 0
                && d.ip_overlap == 0 && (d.wildcard_cname matches Some(c) && a.cnames.contains(c)
                && sig.cnames.contains(c))
            &&& d.status is MixedWildcard ==> d.ip_overlap < d.host_ips
            &&& d.wildcard_reason == Some(WildcardReason::IpOverlap) && d.status is WildcardIp
                ==> d.ip_overlap == d.host_ips
        }),
{
    lemma_shared(a, sig);
    lemma_common(a.ips, sig.ips);
    law_matching_cname_is_shared(a, sig);
    crate::lists::lemma_tally_bound(a.ips, |ip: IpAddr| sig.ips.contains(ip));
}

/// How many hundredths of confidence each verdict has. A second resolver and a known CDN
/// each make a resolved host surer, disagreement makes NXDOMAIN less sure, and shared
/// addresses weigh by their share.
pub proof fn law_confidence_by_verdict(d: DecisionView, a: AnswersView, cdn_tagged: bool)
    requires
        0 <= d.ip_overlap <= d.host_ips <= usize::MAX,
    ensures
        ({
            let c = confidence_in(d, a, cdn_tagged);
            let h = c.num() * 100;
            let one = c.den() as int;
            &&& 0 <= c.num() <= c.den()
            &&& d.status is Resolved ==> h == one * (90 + (if a.answer_count > 1 {
                5int
            } else {
                0
            }) + (if cdn_tagged {
                5int
            } else {
                0
            }))
            &&& d.status is Unresolved ==> h == one * (if a.disagreement {
                50int
            } else {
                90
            })
            &&& d.status is WildcardCname ==> h == one * 95
            &&& d.status is MixedWildcard ==> h == one * 50
            &&& d.status is Shaky ==> h == one * 30
            &&& d.status is Timeout ==> h == one * 10
            &&& d.status is Error || d.status is Unknown ==> h == 0
            &&& d.status is WildcardIp && d.wildcard_reason == Some(WildcardReason::TimeoutInferred)
                ==> h == one * 60
            &&& d.status is WildcardIp && d.wildcard_reason != Some(WildcardReason::TimeoutInferred)
                && d.host_ips > 0 ==> h * d.host_ips == one * (60 * d.host_ips + 40 * d.ip_overlap)
        }),
{
    let base = coverage_base(d);
    let part = coverage_part(d);
    Confidence::lemma_fraction(fixed_confidence(d, a, cdn_tagged), 100);
    Confidence::lemma_fraction((3 * base + 2 * part) as nat, (5 * base) as nat);
    if scaled(d) && d.host_ips > 0 {
        let n = d.host_ips;
        let k = d.ip_overlap;
        let c = confidence_in(d, a, cdn_tagged);
        assert(c.num() == 3 * n + 2 * k && c.den() == 5 * n);
        assert((3 * n + 2 * k) * 100 * n == 5 * n * (60 * n + 40 * k)) by (nonlinear_arith);
        assert(c.num() * 100 * n == c.den() * (60 * n + 40 * k));
    }
}

} // verus!

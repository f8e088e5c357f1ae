//! What is shown: classes of DNS results, explanations and lines of text.

use vstd::prelude::*;
use vstd::slice::slice_subrange;

use crate::cdn::CdnView;
use crate::classify::{classified, lemma_well_formed_chars, wildcard_base};
use crate::dedupe::{bare_host, host_without_port, law_canonical_form_without_port_is_host};
use crate::dns::answers::AnswersView;
use crate::dns::decision::{
    cdn_of, confidence_in, downgraded, law_resolved_is_certain, law_verdicts_rest_on_observations,
    shared_cnames, shared_ips, shows_wildcard, verdict, SignatureView,
};
use crate::dns::health::{ResolverHealth, ResolverHealthStatus};
use crate::dns::stats::DnsStats;
use crate::dns::validator::judged;
use crate::extract::{lemma_nonempty_items, nonempty};
use crate::lists::{
    all_added, common, inside, lemma_all_added, lemma_push_contains, sort_texts, sorted_texts,
    UniqueTexts,
};
use crate::model::{views, Asset, AssetKind, AssetView, DnsStatus, WildcardReason};
use crate::normalize::{host_and_port, NormalizedView};
use crate::numbers::{decimal, decimal_of, decimal_of_usize};
use crate::text::{
    chars_of, find, first_index, has_any, is_text, join, joined, lowered, opt_text, string_of,
    texts, to_lower, trim, trimmed, CharClass,
};

verus! {

// ---------------------------------------------------------------------------
// Names

/// The name of a DNS status.
pub open spec fn status_name(s: DnsStatus) -> Seq<char> {
    match s {
        DnsStatus::Unknown => "unknown"@,
        DnsStatus::Resolved => "resolved"@,
        DnsStatus::Unresolved => "unresolved"@,
        DnsStatus::WildcardIp => "wildcard_ip"@,
        DnsStatus::WildcardCname => "wildcard_cname"@,
        DnsStatus::MixedWildcard => "mixed_wildcard"@,
        DnsStatus::Shaky => "shaky"@,
        DnsStatus::Timeout => "timeout"@,
        DnsStatus::Error => "error"@,
    }
}

/// The name of a DNS status.
pub fn dns_status_str(s: &DnsStatus) -> (r: &'static str)
    ensures
        r@ == status_name(*s),
{
    match s {
        DnsStatus::Unknown => "unknown",
        DnsStatus::Resolved => "resolved",
        DnsStatus::Unresolved => "unresolved",
        DnsStatus::WildcardIp => "wildcard_ip",
        DnsStatus::WildcardCname => "wildcard_cname",
        DnsStatus::MixedWildcard => "mixed_wildcard",
        DnsStatus::Shaky => "shaky",
        DnsStatus::Timeout => "timeout",
        DnsStatus::Error => "error",
    }
}

/// Whether a text, in lowercase and without surrounding whitespace, names a status. The
/// wildcard statuses may be written without the underscore.
pub open spec fn names_status(raw: Seq<char>, s: DnsStatus) -> bool {
    let t = lowered(trimmed(raw, CharClass::Whitespace));
    ||| t == status_name(s)
    ||| s is WildcardIp && t == "wildcardip"@
    ||| s is WildcardCname && t == "wildcardcname"@
    ||| s is MixedWildcard && t == "mixedwildcard"@
}

/// Reads a status. A text that names none is handed back in lowercase.
pub fn parse_status(s: &str) -> (r: Result<DnsStatus, String>)
    ensures
        match r {
            Ok(status) => names_status(s@, status),
            Err(t) => t@ == lowered(trimmed(s@, CharClass::Whitespace)) && forall|x: DnsStatus|
                !#[trigger] names_status(s@, x),
        },
{
    let chars = chars_of(s);
    let low = to_lower(trim(chars.as_slice(), CharClass::Whitespace));
    let t = low.as_slice();
    if is_text(t, "unknown") {
        Ok(DnsStatus::Unknown)
    } else if is_text(t, "resolved") {
        Ok(DnsStatus::Resolved)
    } else if is_text(t, "unresolved") {
        Ok(DnsStatus::Unresolved)
    } else if is_text(t, "wildcard_ip") || is_text(t, "wildcardip") {
        Ok(DnsStatus::WildcardIp)
    } else if is_text(t, "wildcard_cname") || is_text(t, "wildcardcname") {
        Ok(DnsStatus::WildcardCname)
    } else if is_text(t, "mixed_wildcard") || is_text(t, "mixedwildcard") {
        Ok(DnsStatus::MixedWildcard)
    } else if is_text(t, "shaky") {
        Ok(DnsStatus::Shaky)
    } else if is_text(t, "timeout") {
        Ok(DnsStatus::Timeout)
    } else if is_text(t, "error") {
        Ok(DnsStatus::Error)
    } else {
        Err(string_of(t))
    }
}

/// The name of a wildcard reason.
pub open spec fn reason_name(reason: WildcardReason) -> Seq<char> {
    match reason {
        WildcardReason::IpOverlap => "ip_overlap"@,
        WildcardReason::CnameMatch => "cname_match"@,
        WildcardReason::TimeoutInferred => "timeout_inferred"@,
    }
}

/// The name of a wildcard reason.
pub fn wildcard_reason_str(reason: WildcardReason) -> (r: &'static str)
    ensures
        r@ == reason_name(reason),
{
    match reason {
        WildcardReason::IpOverlap => "ip_overlap",
        WildcardReason::CnameMatch => "cname_match",
        WildcardReason::TimeoutInferred => "timeout_inferred",
    }
}

/// The name of a check result.
pub open spec fn health_name(s: ResolverHealthStatus) -> Seq<char> {
    match s {
        ResolverHealthStatus::Healthy => "ok"@,
        ResolverHealthStatus::Warn => "warn"@,
        ResolverHealthStatus::Bad => "bad"@,
        ResolverHealthStatus::Error => "error"@,
    }
}

/// The name of a check result.
pub fn resolver_health_status_str(s: ResolverHealthStatus) -> (r: &'static str)
    ensures
        r@ == health_name(s),
{
    match s {
        ResolverHealthStatus::Healthy => "ok",
        ResolverHealthStatus::Warn => "warn",
        ResolverHealthStatus::Bad => "bad",
        ResolverHealthStatus::Error => "error",
    }
}

// ---------------------------------------------------------------------------
// Classes

/// The class of a DNS result.
#[derive(Copy, Clone, Debug, PartialEq, Eq, Structural)]
pub enum DnsBucket {
    /// Surely real.
    Trusted,
    /// To be looked at.
    Review,
    /// Likely fake, dead or of no use.
    Ignore,
}

/// What is shown.
#[derive(Copy, Clone, Debug, PartialEq, Eq, Structural)]
pub enum DnsOutputClass {
    Trusted,
    Review,
    All,
}

/// The class of an asset.
pub open spec fn bucket_of(a: AssetView) -> DnsBucket {
    match a.dns {
        DnsStatus::Resolved => if a.confidence is Some && a.confidence->0.at_least(80) {
            DnsBucket::Trusted
        } else {
            DnsBucket::Review
        },
        DnsStatus::MixedWildcard => DnsBucket::Review,
        DnsStatus::Shaky => DnsBucket::Review,
        DnsStatus::WildcardIp => if a.wildcard_reason == Some(WildcardReason::TimeoutInferred) {
            DnsBucket::Review
        } else {
            DnsBucket::Ignore
        },
        _ => DnsBucket::Ignore,
    }
}

/// The class of an asset.
pub fn dns_bucket(asset: &Asset) -> (r: DnsBucket)
    ensures
        r == bucket_of(asset@),
{
    match asset.dns {
        DnsStatus::Resolved => {
            let sure = match asset.confidence {
                Some(c) => c.is_at_least(80),
                None => false,
            };
            if sure {
                DnsBucket::Trusted
            } else {
                DnsBucket::Review
            }
        },
        DnsStatus::MixedWildcard | DnsStatus::Shaky => DnsBucket::Review,
        DnsStatus::WildcardIp => {
            if asset.wildcard_reason == Some(WildcardReason::TimeoutInferred) {
                DnsBucket::Review
            } else {
                DnsBucket::Ignore
            }
        },
        DnsStatus::Unknown
        | DnsStatus::Unresolved
        | DnsStatus::WildcardCname
        | DnsStatus::Timeout
        | DnsStatus::Error => DnsBucket::Ignore,
    }
}

/// The name of a class.
pub open spec fn bucket_name(b: DnsBucket) -> Seq<char> {
    match b {
        DnsBucket::Trusted => "trusted"@,
        DnsBucket::Review => "review"@,
        DnsBucket::Ignore => "ignore"@,
    }
}

/// The name of a class.
pub fn dns_bucket_str(bucket: DnsBucket) -> (r: &'static str)
    ensures
        r@ == bucket_name(bucket),
{
    match bucket {
        DnsBucket::Trusted => "trusted",
        DnsBucket::Review => "review",
        DnsBucket::Ignore => "ignore",
    }
}

impl DnsOutputClass {
    /// Whether an asset is shown.
    pub open spec fn shows(self, a: AssetView) -> bool {
        match self {
            DnsOutputClass::Trusted => bucket_of(a) is Trusted,
            DnsOutputClass::Review => bucket_of(a) is Review,
            DnsOutputClass::All => true,
        }
    }

    /// Tests whether an asset is shown.
    pub fn includes(self, asset: &Asset) -> (r: bool)
        ensures
            r == self.shows(asset@),
    {
        match self {
            DnsOutputClass::Trusted => dns_bucket(asset) == DnsBucket::Trusted,
            DnsOutputClass::Review => dns_bucket(asset) == DnsBucket::Review,
            DnsOutputClass::All => true,
        }
    }
}

/// Picks the output class: everything, the assets to be looked at, or the trusted ones.
pub fn output_class(all: bool, review: bool) -> (r: DnsOutputClass)
    ensures
        r == (if all {
            DnsOutputClass::All
        } else if review {
            DnsOutputClass::Review
        } else {
            DnsOutputClass::Trusted
        }),
{
    if all {
        DnsOutputClass::All
    } else if review {
        DnsOutputClass::Review
    } else {
        DnsOutputClass::Trusted
    }
}

/// Which results are shown: those of an output class, or those with certain statuses.
pub enum DnsSelection {
    Class(DnsOutputClass),
    Statuses(Vec<DnsStatus>),
}

impl DnsSelection {
    /// Whether an asset is selected.
    pub open spec fn selects(self, a: AssetView) -> bool {
        match self {
            DnsSelection::Class(c) => c.shows(a),
            DnsSelection::Statuses(v) => v@.contains(a.dns),
        }
    }

    fn test(&self, asset: &Asset) -> (r: bool)
        ensures
            r == self.selects(asset@),
    {
        match self {
            DnsSelection::Class(c) => c.includes(asset),
            DnsSelection::Statuses(v) => {
                let mut i: usize = 0;
                while i < v.len()
                    invariant
                        i <= v@.len(),
                        *self == DnsSelection::Statuses(*v),
                        forall|j: int| 0 <= j < i ==> v@[j] != asset.dns,
                    decreases v.len() - i,
                {
                    if v[i] == asset.dns {
                        return true;
                    }
                    i += 1;
                }
                false
            },
        }
    }

    /// Keeps the selected assets.
    pub fn keep(&self, assets: Vec<Asset>) -> (r: Vec<Asset>)
        ensures
            views(r@) == views(assets@).filter(|a: AssetView| self.selects(a)),
    {
        let ghost p = |a: AssetView| self.selects(a);
        let ghost all = views(assets@);
        let mut out: Vec<Asset> = Vec::new();
        proof {
            reveal(Seq::filter);
            assert(all.take(0) =~= Seq::empty());
            assert(views(out@) =~= all.take(0).filter(p));
        }
        for a in it: assets
            invariant
                it.seq() == assets@,
                all == views(assets@),
                p == (|a: AssetView| self.selects(a)),
                views(out@) == all.take(it.index() as int).filter(p),
        {
            let ghost before = views(out@);
            let ghost view = a@;
            proof {
                reveal(Seq::filter);
                assert(all.take(it.index() + 1).drop_last() =~= all.take(it.index() as int));
                assert(all.take(it.index() + 1).last() == view);
            }
            if self.test(&a) {
                out.push(a);
                assert(views(out@) =~= before.push(view));
            }
        }
        assert(all.take(all.len() as int) =~= all);
        out
    }
}

/// Why no selection can be made.
#[derive(Debug, Clone, PartialEq, Eq)]
pub enum SelectionError {
    /// Statuses were asked for together with an output class.
    Conflict,
    /// A text names no status.
    UnknownStatus(String),
}

/// The first place below `n` of a text that names no status.
pub open spec fn first_unknown(v: Seq<Seq<char>>, n: int) -> Option<int>
    decreases n,
{
    if n <= 0 || n > v.len() {
        None
    } else {
        match first_unknown(v, n - 1) {
            Some(i) => Some(i),
            None => if exists|s: DnsStatus| #[trigger] names_status(v[n - 1], s) {
                None
            } else {
                Some(n - 1)
            },
        }
    }
}

/// Whether statuses are those that texts name, one by one.
pub open spec fn all_named(v: Seq<Seq<char>>, statuses: Seq<DnsStatus>) -> bool {
    &&& v.len() == statuses.len()
    &&& forall|i: int| 0 <= i < v.len() ==> names_status(#[trigger] v[i], statuses[i])
}

proof fn lemma_first_unknown(v: Seq<Seq<char>>, i: int, n: int)
    requires
        0 <= i <= n <= v.len(),
        first_unknown(v, i) is Some,
    ensures
        first_unknown(v, n) == first_unknown(v, i),
    decreases n - i,
{
    if i < n {
        lemma_first_unknown(v, i, n - 1);
    }
}

/// Picks the selection: the statuses that are named, or else an output class. The two
/// exclude each other.
pub fn choose_selection(
    statuses: &Vec<String>,
    all: bool,
    review: bool,
    resolved_only: bool,
) -> (r: Result<DnsSelection, SelectionError>)
    ensures
        ({
            let v = texts(statuses@);
            let class = all || review || resolved_only;
            match r {
                Ok(DnsSelection::Class(c)) => v.len() == 0 && c == (if all {
                    DnsOutputClass::All
                } else if review {
                    DnsOutputClass::Review
                } else {
                    DnsOutputClass::Trusted
                }),
                Ok(DnsSelection::Statuses(s)) => v.len() > 0 && !class && all_named(v, s@),
                Err(SelectionError::Conflict) => v.len() > 0 && class,
                Err(SelectionError::UnknownStatus(t)) => {
                    &&& v.len() > 0
                    &&& !class
                    &&& first_unknown(v, v.len() as int) is Some
                    &&& t@ == lowered(
                        trimmed(v[first_unknown(v, v.len() as int)->0], CharClass::Whitespace),
                    )
                },
            }
        }),
{
    if statuses.len() == 0 {
        return Ok(DnsSelection::Class(output_class(all, review)));
    }
    if all || review || resolved_only {
        return Err(SelectionError::Conflict);
    }
    let ghost v = texts(statuses@);
    let mut out: Vec<DnsStatus> = Vec::new();
    let mut i: usize = 0;
    while i < statuses.len()
        invariant
            i <= statuses@.len(),
            v == texts(statuses@),
            v.len() > 0,
            !(all || review || resolved_only),
            out@.len() == i,
            first_unknown(v, i as int) is None,
            forall|j: int| 0 <= j < i ==> names_status(#[trigger] v[j], out@[j]),
        decreases statuses.len() - i,
    {
        assert(v[i as int] == statuses@[i as int]@);
        match parse_status(statuses[i].as_str()) {
            Ok(s) => {
                assert(names_status(v[i as int], s));
                out.push(s);
            },
            Err(t) => {
                proof {
                    assert(first_unknown(v, i + 1) == Some(i as int));
                    lemma_first_unknown(v, i + 1, v.len() as int);
                }
                return Err(SelectionError::UnknownStatus(t));
            },
        }
        i += 1;
    }
    Ok(DnsSelection::Statuses(out))
}

// ---------------------------------------------------------------------------
// Explanations

/// A list with an item at its end if there is one.
pub open spec fn with_item(v: Seq<Seq<char>>, item: Option<Seq<char>>) -> Seq<Seq<char>> {
    match item {
        Some(t) => v.push(t),
        None => v,
    }
}

/// A key with its value, if there is one.
pub open spec fn field(key: Seq<char>, value: Option<Seq<char>>) -> Option<Seq<char>> {
    match value {
        Some(t) => Some(key + t),
        None => None,
    }
}

/// A key with its count, unless that is zero.
pub open spec fn count_field(key: Seq<char>, n: usize) -> Option<Seq<char>> {
    if n > 0 {
        Some(key + decimal(n as nat))
    } else {
        None
    }
}

/// The CNAME target that explains a wildcard verdict or, where it was not recorded, the
/// first of the chain.
pub open spec fn matching_cname(a: AssetView) -> Option<Seq<char>> {
    if a.wildcard_cname is Some {
        a.wildcard_cname
    } else if a.cnames.len() > 0 {
        Some(a.cnames[0])
    } else {
        None
    }
}

/// The fields that explain a DNS result.
pub open spec fn explanation(a: AssetView) -> Seq<Seq<char>> {
    let v = with_item(Seq::empty(), field("root="@, a.wildcard_root));
    let v = with_item(
        v,
        field(
            "reason="@,
            match a.wildcard_reason {
                Some(r) => Some(reason_name(r)),
                None => None,
            },
        ),
    );
    let v = with_item(
        v,
        field(
            "cname="@,
            if a.wildcard_reason == Some(WildcardReason::CnameMatch) {
                matching_cname(a)
            } else {
                None
            },
        ),
    );
    let v = with_item(v, count_field("ip_overlap="@, a.wildcard_ip_overlap_count));
    let v = with_item(v, count_field("cname_overlap="@, a.wildcard_cname_overlap_count));
    let v = with_item(v, count_field("host_ips="@, a.wildcard_host_ip_count));
    let v = with_item(v, count_field("signature_ips="@, a.wildcard_signature_ip_count));
    let v = with_item(v, count_field("signature_cnames="@, a.wildcard_signature_cname_count));
    let v = with_item(
        v,
        if a.resolver_disagreement {
            Some("resolver_disagreement=true"@)
        } else {
            None
        },
    );
    let v = with_item(v, field("dead_zone="@, a.dead_zone));
    let v = with_item(v, field("flaky_zone="@, a.flaky_zone));
    let v = with_item(v, field("cdn="@, a.cdn));
    with_item(
        v,
        field(
            "confidence="@,
            match a.confidence {
                Some(c) => Some(c.text()),
                None => None,
            },
        ),
    )
}

fn push_item(out: &mut Vec<String>, item: Option<String>)
    ensures
        texts(final(out)@) == with_item(texts(old(out)@), opt_text(item)),
{
    if let Some(s) = item {
        out.push(s);
        assert(texts(out@) =~= texts(old(out)@).push(s@));
    }
}

fn text_field(key: &str, value: Option<&str>) -> (r: Option<String>)
    ensures
        opt_text(r) == field(
            key@,
            match value {
                Some(s) => Some(s@),
                None => None,
            },
        ),
{
    match value {
        Some(s) => Some(crate::text::concat(key, s)),
        None => None,
    }
}

fn owned_field(key: &str, value: &Option<String>) -> (r: Option<String>)
    ensures
        opt_text(r) == field(key@, opt_text(*value)),
{
    match value {
        Some(s) => Some(crate::text::concat(key, s.as_str())),
        None => None,
    }
}

fn number_field(key: &str, n: usize) -> (r: Option<String>)
    ensures
        opt_text(r) == count_field(key@, n),
{
    if n > 0 {
        Some(crate::text::concat(key, decimal_of_usize(n).as_str()))
    } else {
        None
    }
}

/// The fields that explain a DNS result, in a fixed order; what is absent or zero is left
/// out.
pub fn dns_explanation(asset: &Asset) -> (r: Vec<String>)
    ensures
        texts(r@) == explanation(asset@),
{
    let mut out: Vec<String> = Vec::new();
    assert(texts(out@) =~= Seq::empty());
    push_item(&mut out, owned_field("root=", &asset.wildcard_root));
    let reason = match asset.wildcard_reason {
        Some(r) => Some(wildcard_reason_str(r)),
        None => None,
    };
    push_item(&mut out, text_field("reason=", reason));
    let cname = if asset.wildcard_reason == Some(WildcardReason::CnameMatch) {
        match &asset.wildcard_cname {
            Some(c) => Some(c.as_str()),
            None => if asset.cnames.len() > 0 {
                Some(asset.cnames[0].as_str())
            } else {
                None
            },
        }
    } else {
        None
    };
    push_item(&mut out, text_field("cname=", cname));
    push_item(&mut out, number_field("ip_overlap=", asset.wildcard_ip_overlap_count));
    push_item(&mut out, number_field("cname_overlap=", asset.wildcard_cname_overlap_count));
    push_item(&mut out, number_field("host_ips=", asset.wildcard_host_ip_count));
    push_item(&mut out, number_field("signature_ips=", asset.wildcard_signature_ip_count));
    push_item(&mut out, number_field("signature_cnames=", asset.wildcard_signature_cname_count));
    let disagreement = if asset.resolver_disagreement {
        Some("resolver_disagreement=true".to_string())
    } else {
        None
    };
    push_item(&mut out, disagreement);
    push_item(&mut out, owned_field("dead_zone=", &asset.dead_zone));
    push_item(&mut out, owned_field("flaky_zone=", &asset.flaky_zone));
    push_item(&mut out, owned_field("cdn=", &asset.cdn));
    let confidence = match asset.confidence {
        Some(c) => Some(c.to_text()),
        None => None,
    };
    push_item(&mut out, owned_field("confidence=", &confidence));
    out
}

// ---------------------------------------------------------------------------
// Lines

/// The form of an asset that is printed: canonical, or without the port.
pub open spec fn shown_form(a: AssetView, no_port: bool) -> Seq<char> {
    if no_port {
        bare_host(a)
    } else {
        a.canonical
    }
}

/// The form of an asset that is printed.
pub fn canonical_for_output(asset: &Asset, no_port: bool) -> (r: String)
    ensures
        r@ == shown_form(asset@, no_port),
{
    if no_port {
        host_without_port(asset)
    } else {
        asset.canonical.clone()
    }
}

/// A text, or nothing.
pub open spec fn text_or_empty(o: Option<Seq<char>>) -> Seq<char> {
    match o {
        Some(s) => s,
        None => Seq::empty(),
    }
}

fn append_opt(out: &mut String, o: &Option<String>)
    ensures
        final(out)@ == old(out)@ + text_or_empty(opt_text(*o)),
{
    match o {
        Some(s) => {
            out.append(s.as_str());
        },
        None => {
            assert(out@ =~= old(out)@ + Seq::empty());
        },
    }
}

/// The line of a classified asset: kind, form, registrable domain and reason.
pub open spec fn class_line(a: AssetView, no_port: bool) -> Seq<char> {
    a.kind.name() + seq!['\t'] + shown_form(a, no_port) + seq!['\t'] + text_or_empty(a.registrable)
        + seq!['\t'] + text_or_empty(a.reason)
}

/// The line of a classified asset: kind, form, registrable domain and reason.
pub fn classify_line(asset: &Asset, no_port: bool) -> (r: String)
    ensures
        r@ == class_line(asset@, no_port),
{
    let mut out = String::new();
    out.append(asset.kind.as_str());
    out.push('\t');
    out.append(canonical_for_output(asset, no_port).as_str());
    out.push('\t');
    append_opt(&mut out, &asset.registrable);
    out.push('\t');
    append_opt(&mut out, &asset.reason);
    assert(out@ =~= class_line(asset@, no_port));
    out
}

/// The line of an asset in a scope listing: its form and, if asked for, the rules.
pub fn scope_line(asset: &Asset, rules: &Vec<String>, no_port: bool, show_rule: bool) -> (r: String)
    ensures
        r@ == (if show_rule {
            shown_form(asset@, no_port) + seq!['\t'] + joined(texts(rules@), ","@)
        } else {
            shown_form(asset@, no_port)
        }),
{
    let mut out = canonical_for_output(asset, no_port);
    if show_rule {
        out.push('\t');
        out.append(join(rules, ",").as_str());
        assert(out@ =~= shown_form(asset@, no_port) + seq!['\t'] + joined(texts(rules@), ","@));
    }
    out
}

/// The line of a DNS result: its form and, if asked for, class, status and explanation.
pub open spec fn result_line(a: AssetView, no_port: bool, explain: bool) -> Seq<char> {
    let form = shown_form(a, no_port);
    let verdict = form + seq!['\t'] + bucket_name(bucket_of(a)) + seq!['\t'] + status_name(a.dns);
    if !explain {
        form
    } else if explanation(a).len() == 0 {
        verdict
    } else {
        verdict + seq!['\t'] + joined(explanation(a), " "@)
    }
}

/// The line of a DNS result: its form and, if asked for, class, status and explanation.
pub fn dns_line(asset: &Asset, no_port: bool, explain: bool) -> (r: String)
    ensures
        r@ == result_line(asset@, no_port, explain),
{
    let mut out = canonical_for_output(asset, no_port);
    if explain {
        out.push('\t');
        out.append(dns_bucket_str(dns_bucket(asset)));
        out.push('\t');
        out.append(dns_status_str(&asset.dns));
        let fields = dns_explanation(asset);
        if fields.len() > 0 {
            out.push('\t');
            out.append(join(&fields, " ").as_str());
        }
        assert(fields@.len() == explanation(asset@).len());
    }
    assert(out@ =~= result_line(asset@, no_port, explain));
    out
}

/// The apex of an asset: an apex without its port, or the registrable domain.
pub open spec fn apex_of(a: AssetView) -> Seq<char> {
    match a.kind {
        AssetKind::Apex => a.canonical.take(first_index(a.canonical, CharClass::Is(':'))),
        AssetKind::Subdomain => text_or_empty(a.registrable),
        AssetKind::Wildcard => text_or_empty(a.registrable),
        _ => Seq::empty(),
    }
}

fn apex_name(asset: &Asset) -> (r: String)
    ensures
        r@ == apex_of(asset@),
{
    match asset.kind {
        AssetKind::Apex => {
            let c = chars_of(asset.canonical.as_str());
            match find(c.as_slice(), CharClass::Is(':')) {
                Some(i) => {
                    let head = slice_subrange(c.as_slice(), 0, i);
                    assert(head@ =~= c@.take(i as int));
                    string_of(head)
                },
                None => {
                    assert(c@.take(c@.len() as int) =~= c@);
                    asset.canonical.clone()
                },
            }
        },
        AssetKind::Subdomain | AssetKind::Wildcard => match &asset.registrable {
            Some(d) => d.clone(),
            None => {
                let e = String::new();
                assert(e@ =~= Seq::empty());
                e
            },
        },
        _ => {
            let e = String::new();
            assert(e@ =~= Seq::empty());
            e
        },
    }
}

/// The apexes of assets, sorted, each once.
pub open spec fn apexes(v: Seq<AssetView>) -> Seq<Seq<char>> {
    sorted_texts(
        all_added(Seq::empty(), nonempty(v.map_values(|a: AssetView| apex_of(a)))),
    )
}

/// Lists the apexes of assets, sorted, each once.
pub fn apex_names(assets: &Vec<Asset>) -> (r: Vec<String>)
    ensures
        texts(r@) == apexes(views(assets@)),
{
    let ghost names = views(assets@).map_values(|a: AssetView| apex_of(a));
    let mut out = UniqueTexts::new();
    let mut i: usize = 0;
    while i < assets.len()
        invariant
            i <= assets@.len(),
            names == views(assets@).map_values(|a: AssetView| apex_of(a)),
            out.wf(),
            out@ == all_added(Seq::empty(), nonempty(names.take(i as int))),
        decreases assets.len() - i,
    {
        assert(names.take(i + 1).drop_last() =~= names.take(i as int));
        assert(names.take(i + 1).last() == apex_of(assets@[i as int]@));
        let ghost kept = nonempty(names.take(i as int));
        let name = apex_name(&assets[i]);
        if !name.as_str().is_empty() {
            out.add(name);
            assert(kept.push(name@).drop_last() =~= kept);
        }
        i += 1;
    }
    assert(names.take(i as int) =~= names);
    sort_texts(&out.into_vec())
}

// ---------------------------------------------------------------------------
// Reports

/// A number of milliseconds, or a hyphen.
pub open spec fn ms_text(v: Option<u128>) -> Seq<char> {
    match v {
        Some(n) => decimal(n as nat),
        None => seq!['-'],
    }
}

/// A number of milliseconds, or a hyphen.
pub fn opt_ms(value: Option<u128>) -> (r: String)
    ensures
        r@ == ms_text(value),
{
    match value {
        Some(n) => decimal_of(n),
        None => {
            let mut out = String::new();
            out.push('-');
            assert(out@ =~= seq!['-']);
            out
        },
    }
}

/// The columns of a resolver check.
pub open spec fn health_columns(h: ResolverHealth, ratio: Seq<char>) -> Seq<Seq<char>> {
    seq![
        h.resolver.text(),
        health_name(h.status),
        decimal(h.score as nat),
        ms_text(h.latency.p50_ms),
        ms_text(h.latency.max_ms),
        ms_text(h.latency.p95_ms),
        ratio,
        fraction_text(h.checks.positive.passed, h.checks.positive.total),
        fraction_text(h.checks.nxdomain.passed, h.checks.nxdomain.total),
        fraction_text(h.checks.wildcard_pollution.passed, h.checks.wildcard_pollution.total),
        if h.reasons@.len() == 0 {
            seq!['-']
        } else {
            joined(texts(h.reasons@), ","@)
        },
    ]
}

/// How many out of how many.
pub open spec fn fraction_text(part: usize, total: usize) -> Seq<char> {
    decimal(part as nat) + seq!['/'] + decimal(total as nat)
}

fn fraction_of(part: usize, total: usize) -> (r: String)
    ensures
        r@ == fraction_text(part, total),
{
    let mut out = decimal_of_usize(part);
    out.push('/');
    out.append(decimal_of_usize(total).as_str());
    assert(out@ =~= fraction_text(part, total));
    out
}

/// The line of a resolver check. `ratio` is the timeout ratio as it is to be shown.
pub fn health_line(h: &ResolverHealth, ratio: &str) -> (r: String)
    ensures
        r@ == joined(health_columns(*h, ratio@), "\t"@),
{
    let reasons = if h.reasons.len() == 0 {
        let mut out = String::new();
        out.push('-');
        assert(out@ =~= seq!['-']);
        out
    } else {
        join(&h.reasons, ",")
    };
    let mut cols: Vec<String> = Vec::new();
    cols.push(h.resolver.to_text());
    cols.push(resolver_health_status_str(h.status).to_string());
    cols.push(decimal_of(h.score as u128));
    cols.push(opt_ms(h.latency.p50_ms));
    cols.push(opt_ms(h.latency.max_ms));
    cols.push(opt_ms(h.latency.p95_ms));
    cols.push(ratio.to_string());
    cols.push(fraction_of(h.checks.positive.passed, h.checks.positive.total));
    cols.push(fraction_of(h.checks.nxdomain.passed, h.checks.nxdomain.total));
    cols.push(
        fraction_of(h.checks.wildcard_pollution.passed, h.checks.wildcard_pollution.total),
    );
    cols.push(reasons);
    assert(texts(cols@) =~= health_columns(*h, ratio@));
    join(&cols, "\t")
}

/// The heading of the table of resolver checks.
pub fn health_header() -> (r: &'static str)
    ensures
        r@
            == "resolver\tstatus\tscore\tp50_ms\tmax_ms\tp95_ms\ttimeout_ratio\tpositive\tnxdomain\twildcard_pollution\treason"@,
{
    "resolver\tstatus\tscore\tp50_ms\tmax_ms\tp95_ms\ttimeout_ratio\tpositive\tnxdomain\twildcard_pollution\treason"
}

/// A heading with a number of zones and a note, then the zones; nothing without zones.
pub open spec fn zone_section(
    title: Seq<char>,
    note: Seq<char>,
    names: Seq<Seq<char>>,
) -> Seq<Seq<char>> {
    if names.len() == 0 {
        Seq::empty()
    } else {
        seq!["# "@ + title + " ("@ + decimal(names.len()) + " detected"@ + note + "):"@]
            + names.map_values(|n: Seq<char>| "  "@ + n)
    }
}

/// Lists zones under a heading; nothing without zones.
pub fn zone_lines(title: &str, note: &str, names: &Vec<String>) -> (r: Vec<String>)
    ensures
        texts(r@) == zone_section(title@, note@, texts(names@)),
{
    let mut out: Vec<String> = Vec::new();
    if names.len() == 0 {
        assert(texts(out@) =~= Seq::empty());
        return out;
    }
    let mut heading = String::new();
    heading.append("# ");
    heading.append(title);
    heading.append(" (");
    heading.append(decimal_of_usize(names.len()).as_str());
    heading.append(" detected");
    heading.append(note);
    heading.append("):");
    let ghost head = "# "@ + title@ + " ("@ + decimal(names@.len()) + " detected"@ + note@ + "):"@;
    assert(heading@ =~= head);
    out.push(heading);
    let ghost all = texts(names@).map_values(|n: Seq<char>| "  "@ + n);
    assert(texts(out@) =~= seq![head] + all.take(0));
    let mut i: usize = 0;
    while i < names.len()
        invariant
            i <= names@.len(),
            all == texts(names@).map_values(|n: Seq<char>| "  "@ + n),
            texts(out@) == seq![head] + all.take(i as int),
        decreases names.len() - i,
    {
        let ghost before = texts(out@);
        let line = crate::text::concat("  ", names[i].as_str());
        out.push(line);
        assert(texts(out@) =~= before.push(all[i as int]));
        i += 1;
        assert(texts(out@) =~= seq![head] + all.take(i as int));
    }
    assert(all.take(i as int) =~= all);
    out
}

/// A name, an equals sign and a count.
pub open spec fn assignment(name: Seq<char>, n: usize) -> Seq<char> {
    name + seq!['='] + decimal(n as nat)
}

fn assign(name: &str, n: usize) -> (r: String)
    ensures
        r@ == assignment(name@, n),
{
    let mut out = String::new();
    out.append(name);
    out.push('=');
    out.append(decimal_of_usize(n).as_str());
    assert(out@ =~= assignment(name@, n));
    out
}

/// A title, a tab and items with blanks between them.
pub open spec fn titled(title: Seq<char>, items: Seq<Seq<char>>) -> Seq<char> {
    title + seq!['\t'] + joined(items, " "@)
}

fn title(name: &str, items: &Vec<String>) -> (r: String)
    ensures
        r@ == titled(name@, texts(items@)),
{
    let mut out = String::new();
    out.append(name);
    out.push('\t');
    out.append(join(items, " ").as_str());
    assert(out@ =~= titled(name@, texts(items@)));
    out
}

/// The lines that sum a run up.
pub open spec fn stats_lines(s: DnsStats) -> Seq<Seq<char>> {
    let p = s.signature_parents;
    let t = s.statuses;
    let w = s.wildcard_decisions;
    let d = s.resolver_disagreement;
    let c = s.short_circuits;
    seq![
        "# dns stats"@,
        titled("input_assets"@, seq![decimal(s.input_assets as nat)]),
        titled("dns_eligible_assets"@, seq![decimal(s.dns_eligible_assets as nat)]),
        titled("elapsed_ms"@, seq![decimal(s.elapsed_ms as nat)]),
        titled("probe_queries"@, seq![decimal(s.probe_queries as nat)]),
        titled("host_queries"@, seq![decimal(s.host_queries as nat)]),
        titled(
            "signature_parents"@,
            seq![
                assignment("total"@, p.total),
                assignment("wildcard"@, p.wildcard),
                assignment("clean"@, p.clean),
                assignment("dead"@, p.dead),
            ],
        ),
        titled(
            "statuses"@,
            seq![
                assignment("unknown"@, t.unknown),
                assignment("resolved"@, t.resolved),
                assignment("unresolved"@, t.unresolved),
                assignment("wildcard_ip"@, t.wildcard_ip),
                assignment("wildcard_cname"@, t.wildcard_cname),
                assignment("mixed_wildcard"@, t.mixed_wildcard),
                assignment("shaky"@, t.shaky),
                assignment("timeout"@, t.timeout),
                assignment("error"@, t.error),
            ],
        ),
        titled(
            "wildcard_decisions"@,
            seq![
                assignment("ip_overlap"@, w.ip_overlap),
                assignment("cname_match"@, w.cname_match),
                assignment("timeout_inferred"@, w.timeout_inferred),
            ],
        ),
        titled(
            "resolver_disagreement"@,
            seq![
                assignment("answer_vs_nxdomain"@, d.answer_vs_nxdomain),
                assignment("answer_vs_timeout"@, d.answer_vs_timeout),
                assignment("answer_vs_error"@, d.answer_vs_error),
                assignment("distinct_ip_sets"@, d.distinct_ip_sets),
                assignment("distinct_cname_sets"@, d.distinct_cname_sets),
            ],
        ),
        titled(
            "short_circuits"@,
            seq![
                assignment("dead_zone"@, c.dead_zone),
                assignment("flaky_zone"@, c.flaky_zone),
            ],
        ),
    ]
}

fn number_line(name: &str, n: u128) -> (r: String)
    ensures
        r@ == titled(name@, seq![decimal(n as nat)]),
{
    let mut items: Vec<String> = Vec::new();
    items.push(decimal_of(n));
    assert(texts(items@) =~= seq![decimal(n as nat)]);
    title(name, &items)
}

/// The lines that sum a run up.
pub fn dns_stats_lines(stats: &DnsStats) -> (r: Vec<String>)
    ensures
        texts(r@) == stats_lines(*stats),
{
    let s = *stats;
    let parents: Vec<String> = vec![
        assign("total", s.signature_parents.total),
        assign("wildcard", s.signature_parents.wildcard),
        assign("clean", s.signature_parents.clean),
        assign("dead", s.signature_parents.dead),
    ];
    let statuses: Vec<String> = vec![
        assign("unknown", s.statuses.unknown),
        assign("resolved", s.statuses.resolved),
        assign("unresolved", s.statuses.unresolved),
        assign("wildcard_ip", s.statuses.wildcard_ip),
        assign("wildcard_cname", s.statuses.wildcard_cname),
        assign("mixed_wildcard", s.statuses.mixed_wildcard),
        assign("shaky", s.statuses.shaky),
        assign("timeout", s.statuses.timeout),
        assign("error", s.statuses.error),
    ];
    let decisions: Vec<String> = vec![
        assign("ip_overlap", s.wildcard_decisions.ip_overlap),
        assign("cname_match", s.wildcard_decisions.cname_match),
        assign("timeout_inferred", s.wildcard_decisions.timeout_inferred),
    ];
    let d = s.resolver_disagreement;
    let differences: Vec<String> = vec![
        assign("answer_vs_nxdomain", d.answer_vs_nxdomain),
        assign("answer_vs_timeout", d.answer_vs_timeout),
        assign("answer_vs_error", d.answer_vs_error),
        assign("distinct_ip_sets", d.distinct_ip_sets),
        assign("distinct_cname_sets", d.distinct_cname_sets),
    ];
    let circuits: Vec<String> = vec![
        assign("dead_zone", s.short_circuits.dead_zone),
        assign("flaky_zone", s.short_circuits.flaky_zone),
    ];
    let ghost lines = stats_lines(s);
    proof {
        assert(lines[6] == titled("signature_parents"@, texts(parents@))) by {
            assert(texts(parents@) =~= seq![
                assignment("total"@, s.signature_parents.total),
                assignment("wildcard"@, s.signature_parents.wildcard),
                assignment("clean"@, s.signature_parents.clean),
                assignment("dead"@, s.signature_parents.dead),
            ]);
        }
        assert(lines[7] == titled("statuses"@, texts(statuses@))) by {
            assert(texts(statuses@) =~= seq![
                assignment("unknown"@, s.statuses.unknown),
                assignment("resolved"@, s.statuses.resolved),
                assignment("unresolved"@, s.statuses.unresolved),
                assignment("wildcard_ip"@, s.statuses.wildcard_ip),
                assignment("wildcard_cname"@, s.statuses.wildcard_cname),
                assignment("mixed_wildcard"@, s.statuses.mixed_wildcard),
                assignment("shaky"@, s.statuses.shaky),
                assignment("timeout"@, s.statuses.timeout),
                assignment("error"@, s.statuses.error),
            ]);
        }
        assert(lines[8] == titled("wildcard_decisions"@, texts(decisions@))) by {
            assert(texts(decisions@) =~= seq![
                assignment("ip_overlap"@, s.wildcard_decisions.ip_overlap),
                assignment("cname_match"@, s.wildcard_decisions.cname_match),
                assignment("timeout_inferred"@, s.wildcard_decisions.timeout_inferred),
            ]);
        }
        assert(lines[9] == titled("resolver_disagreement"@, texts(differences@))) by {
            assert(texts(differences@) =~= seq![
                assignment("answer_vs_nxdomain"@, d.answer_vs_nxdomain),
                assignment("answer_vs_timeout"@, d.answer_vs_timeout),
                assignment("answer_vs_error"@, d.answer_vs_error),
                assignment("distinct_ip_sets"@, d.distinct_ip_sets),
                assignment("distinct_cname_sets"@, d.distinct_cname_sets),
            ]);
        }
        assert(lines[10] == titled("short_circuits"@, texts(circuits@))) by {
            assert(texts(circuits@) =~= seq![
                assignment("dead_zone"@, s.short_circuits.dead_zone),
                assignment("flaky_zone"@, s.short_circuits.flaky_zone),
            ]);
        }
    }
    let out: Vec<String> = vec![
        "# dns stats".to_string(),
        number_line("input_assets", s.input_assets as u128),
        number_line("dns_eligible_assets", s.dns_eligible_assets as u128),
        number_line("elapsed_ms", s.elapsed_ms),
        number_line("probe_queries", s.probe_queries as u128),
        number_line("host_queries", s.host_queries as u128),
        title("signature_parents", &parents),
        title("statuses", &statuses),
        title("wildcard_decisions", &decisions),
        title("resolver_disagreement", &differences),
        title("short_circuits", &circuits),
    ];
    assert(texts(out@) =~= lines);
    out
}

// ---------------------------------------------------------------------------
// Laws

/// Every asset is in one class, and the classes that are shown by default and for review
/// have nothing in common.
pub proof fn law_classes_are_disjoint(a: AssetView)
    ensures
        !(DnsOutputClass::Trusted.shows(a) && DnsOutputClass::Review.shows(a)),
        DnsOutputClass::All.shows(a),
        bucket_of(a) is Ignore <==> !DnsOutputClass::Trusted.shows(a)
            && !DnsOutputClass::Review.shows(a),
{
}

/// Only resolved assets are trusted, and no wildcard verdict is.
pub proof fn law_wildcards_are_not_trusted(a: AssetView)
    ensures
        DnsOutputClass::Trusted.shows(a) ==> a.dns is Resolved,
        a.dns.wildcard() ==> !DnsOutputClass::Trusted.shows(a),
{
}

proof fn lemma_status_literals()
    ensures
        "unknown"@.len() == 7 && "unknown"@[0] == 'u',
        "resolved"@.len() == 8,
        "unresolved"@.len() == 10 && "unresolved"@[0] == 'u',
        "wildcard_ip"@.len() == 11,
        "wildcardip"@.len() == 10 && "wildcardip"@[0] == 'w',
        "wildcard_cname"@.len() == 14 && "wildcard_cname"@[0] == 'w',
        "wildcardcname"@.len() == 13 && "wildcardcname"@[0] == 'w',
        "mixed_wildcard"@.len() == 14 && "mixed_wildcard"@[0] == 'm',
        "mixedwildcard"@.len() == 13 && "mixedwildcard"@[0] == 'm',
        "shaky"@.len() == 5 && "shaky"@[0] == 's',
        "timeout"@.len() == 7 && "timeout"@[0] == 't',
        "error"@.len() == 5 && "error"@[0] == 'e',
{
    reveal_strlit("unknown");
    reveal_strlit("resolved");
    reveal_strlit("unresolved");
    reveal_strlit("wildcard_ip");
    reveal_strlit("wildcardip");
    reveal_strlit("wildcard_cname");
    reveal_strlit("wildcardcname");
    reveal_strlit("mixed_wildcard");
    reveal_strlit("mixedwildcard");
    reveal_strlit("shaky");
    reveal_strlit("timeout");
    reveal_strlit("error");
}

/// No text names two statuses.
pub proof fn law_status_names_are_distinct(raw: Seq<char>, a: DnsStatus, b: DnsStatus)
    requires
        names_status(raw, a),
        names_status(raw, b),
    ensures
        a == b,
{
    lemma_status_literals();
}

/// The name of a status is read back as the status.
pub proof fn law_status_names_are_read_back(s: DnsStatus)
    ensures
        names_status(status_name(s), s),
{
    let t = status_name(s);
    match s {
        DnsStatus::Unknown => reveal_strlit("unknown"),
        DnsStatus::Resolved => reveal_strlit("resolved"),
        DnsStatus::Unresolved => reveal_strlit("unresolved"),
        DnsStatus::WildcardIp => reveal_strlit("wildcard_ip"),
        DnsStatus::WildcardCname => reveal_strlit("wildcard_cname"),
        DnsStatus::MixedWildcard => reveal_strlit("mixed_wildcard"),
        DnsStatus::Shaky => reveal_strlit("shaky"),
        DnsStatus::Timeout => reveal_strlit("timeout"),
        DnsStatus::Error => reveal_strlit("error"),
    }
    crate::text::lemma_unchanged_by_trim(t, CharClass::Whitespace);
    assert(crate::text::is_lower(t));
    crate::text::lemma_lowered(t);
}

/// A host is trusted exactly when it is judged `Resolved`.
pub proof fn law_resolved_hosts_are_trusted(
    asset: AssetView,
    a: AnswersView,
    sig: Option<SignatureView>,
    infer: bool,
    table: CdnView,
)
    ensures
        bucket_of(judged(asset, a, sig, infer, table)) is Trusted <==> judged(
            asset,
            a,
            sig,
            infer,
            table,
        ).dns is Resolved,
{
    let cdn = cdn_of(table, a);
    let d = downgraded(verdict(a, sig, infer), cdn);
    if d.status is Resolved {
        law_resolved_is_certain(d, a, cdn is Some);
        let c = confidence_in(d, a, cdn is Some);
        assert(c.at_least(80)) by {
            assert(c.den() * 80 <= c.den() * 90) by (nonlinear_arith);
        }
    }
}

/// A host behind a CDN that shares nothing but addresses with a wildcard is neither
/// trusted nor dropped: it is to be looked at.
pub proof fn law_cdn_overlap_is_reviewed(
    asset: AssetView,
    a: AnswersView,
    sig: SignatureView,
    infer: bool,
    table: CdnView,
)
    requires
        a.any_answer,
        shared_cnames(a, sig) == 0,
        shared_ips(a, sig) > 0,
        cdn_of(table, a) is Some,
    ensures
        bucket_of(judged(asset, a, Some(sig), infer, table)) is Review,
{
}

/// A host that shares all of its addresses or a CNAME target with a wildcard is ignored,
/// unless only addresses are shared and a CDN is known.
pub proof fn law_wildcard_hosts_are_ignored(
    asset: AssetView,
    a: AnswersView,
    sig: SignatureView,
    infer: bool,
    table: CdnView,
)
    requires
        a.any_answer,
        shared_cnames(a, sig) > 0 || (a.ips.len() > 0 && shared_ips(a, sig) == a.ips.len()
            && cdn_of(table, a) is None),
    ensures
        bucket_of(judged(asset, a, Some(sig), infer, table)) is Ignore,
{
}

/// Assets are to be looked at only if they resolve, resolve partly as a wildcard does or
/// shakily, or timed out below a wildcard. Whatever does not exist or does not answer is
/// ignored, and of what resolves nothing is.
pub proof fn law_only_open_cases_are_reviewed(a: AssetView)
    ensures
        bucket_of(a) is Review ==> {
            ||| a.dns is Resolved
            ||| a.dns is MixedWildcard
            ||| a.dns is Shaky
            ||| a.dns is WildcardIp && a.wildcard_reason == Some(WildcardReason::TimeoutInferred)
        },
        a.dns is MixedWildcard || a.dns is Shaky ==> DnsOutputClass::Review.shows(a),
        a.dns is WildcardIp && a.wildcard_reason == Some(WildcardReason::TimeoutInferred)
            ==> DnsOutputClass::Review.shows(a),
        a.dns is Resolved ==> DnsOutputClass::Review.shows(a) || DnsOutputClass::Trusted.shows(a),
        a.dns is Resolved ==> (DnsOutputClass::Trusted.shows(a) <==> (a.confidence matches Some(c)
            && c.at_least(80))),
{
}

/// The class of a host by what was observed of it. It is trusted exactly if it answers, all
/// resolvers agree and nothing of a wildcard above shows. It is ignored exactly if it does
/// not answer, unless that may be a wildcard timing out, or if its CNAME target or all of its
/// addresses are those of a wildcard, unless only addresses are and a CDN is known.
pub proof fn law_classes_rest_on_observations(
    asset: AssetView,
    a: AnswersView,
    sig: Option<SignatureView>,
    infer: bool,
    table: CdnView,
)
    ensures
        ({
            let class = bucket_of(judged(asset, a, sig, infer, table));
            let silent = !a.any_answer && !(infer && a.any_timeout && sig is Some);
            &&& class is Trusted <==> a.any_answer && !a.disagreement && !shows_wildcard(a, sig)
            &&& class is Ignore <==> silent || (a.any_answer && (sig matches Some(s) && (common(
                a.cnames,
                s.cnames,
            ) || (common(a.ips, s.ips) && inside(a.ips, s.ips) && cdn_of(table, a) is None))))
        }),
{
    law_verdicts_rest_on_observations(a, sig, infer);
    law_resolved_hosts_are_trusted(asset, a, sig, infer, table);
}

/// A host without any answer is ignored unless a timeout is taken for a wildcard, so one that
/// every resolver says does not exist is.
pub proof fn law_silent_hosts_are_ignored(
    asset: AssetView,
    a: AnswersView,
    sig: Option<SignatureView>,
    infer: bool,
    table: CdnView,
)
    requires
        !a.any_answer,
        !(infer && a.any_timeout && sig is Some),
    ensures
        bucket_of(judged(asset, a, sig, infer, table)) is Ignore,
        !DnsOutputClass::Trusted.shows(judged(asset, a, sig, infer, table)),
        !DnsOutputClass::Review.shows(judged(asset, a, sig, infer, table)),
{
    law_classes_rest_on_observations(asset, a, sig, infer, table);
}

/// Without its port an asset is shown as its host, and with it as its canonical form; the two
/// are the same if it has none.
pub proof fn law_ports_are_shown_unless_declined(
    n: NormalizedView,
    registrable: Option<Seq<char>>,
)
    requires
        !(classified(n, registrable).kind is Garbage),
    ensures
        ({
            let a = classified(n, registrable);
            let h = if a.kind is Ip {
                crate::ip::ip_value(trimmed(n.host, CharClass::Whitespace))->0.text()
            } else {
                trimmed(n.host, CharClass::Whitespace)
            };
            &&& shown_form(a, true) == h
            &&& shown_form(a, false) == host_and_port(h, n.port)
            &&& n.port is None ==> shown_form(a, true) == shown_form(a, false)
        }),
{
    law_canonical_form_without_port_is_host(n, registrable);
}

/// The apex of an apex, a subdomain or a wildcard is its registrable domain, whatever its
/// port, and nothing else has one.
pub proof fn law_apexes_are_registrable_domains(n: NormalizedView, d: Seq<char>)
    ensures
        ({
            let a = classified(n, Some(d));
            apex_of(a) == (if a.kind is Apex || a.kind is Subdomain || a.kind is Wildcard {
                d
            } else {
                Seq::empty()
            })
        }),
{
    let a = classified(n, Some(d));
    let host = trimmed(n.host, CharClass::Whitespace);
    let k = CharClass::Is(':');
    if a.kind is Apex {
        lemma_well_formed_chars(host);
        let base = wildcard_base(host);
        assert(host == base && base == d);
        let c = a.canonical;
        assert forall|i: int| 0 <= i < host.len() implies !k.has(#[trigger] host[i]) by {
            assert(CharClass::LabelInside.has(base[i]) || base[i] == '.');
        }
        let m = host.len() as int;
        assert(!has_any(host, k));
        assert forall|i: int| 0 <= i < m implies !k.has(#[trigger] c[i]) by {
            assert(c[i] == host[i]);
        }
        crate::text::lemma_index_is(c, k, 0, m);
        assert(c.take(m) =~= host);
    }
}

/// The list of apexes is sorted, has each apex of an asset, once, and nothing else.
pub proof fn law_every_apex_is_listed(v: Seq<AssetView>, x: Seq<char>)
    ensures
        apexes(v).contains(x) <==> x.len() > 0 && exists|i: int|
            0 <= i < v.len() && apex_of(#[trigger] v[i]) == x,
        apexes(v).no_duplicates(),
        vstd::relations::sorted_by(apexes(v), crate::lists::text_order()),
{
    let names = v.map_values(|a: AssetView| apex_of(a));
    let kept = nonempty(names);
    lemma_all_added(Seq::empty(), kept);
    crate::lists::lemma_sorted_texts(all_added(Seq::empty(), kept));
    lemma_nonempty_items(names, x);
    assert(!Seq::<Seq<char>>::empty().contains(x));
    if names.contains(x) {
        let i = choose|i: int| 0 <= i < names.len() && names[i] == x;
        assert(apex_of(v[i]) == x);
    }
    if exists|i: int| 0 <= i < v.len() && apex_of(#[trigger] v[i]) == x {
        let i = choose|i: int| 0 <= i < v.len() && apex_of(#[trigger] v[i]) == x;
        assert(names[i] == x);
    }
}

proof fn lemma_item_kept(v: Seq<Seq<char>>, item: Option<Seq<char>>, x: Seq<char>)
    ensures
        with_item(v, item).contains(x) <==> v.contains(x) || item == Some(x),
        with_item(v, item).len() == v.len() + (if item is Some {
            1int
        } else {
            0
        }),
{
    if let Some(t) = item {
        lemma_push_contains(v, t, x);
    }
}

/// Whether a text is one of the fields that explain a DNS result.
pub open spec fn explains(a: AssetView, x: Seq<char>) -> bool {
    ||| a.wildcard_root matches Some(r) && x == "root="@ + r
    ||| a.wildcard_reason matches Some(r) && x == "reason="@ + reason_name(r)
    ||| a.wildcard_reason == Some(WildcardReason::CnameMatch) && (matching_cname(a) matches Some(c)
        && x == "cname="@ + c)
    ||| a.wildcard_ip_overlap_count > 0 && x == "ip_overlap="@ + decimal(
        a.wildcard_ip_overlap_count as nat,
    )
    ||| a.wildcard_cname_overlap_count > 0 && x == "cname_overlap="@ + decimal(
        a.wildcard_cname_overlap_count as nat,
    )
    ||| a.wildcard_host_ip_count > 0 && x == "host_ips="@ + decimal(a.wildcard_host_ip_count as nat)
    ||| a.wildcard_signature_ip_count > 0 && x == "signature_ips="@ + decimal(
        a.wildcard_signature_ip_count as nat,
    )
    ||| a.wildcard_signature_cname_count > 0 && x == "signature_cnames="@ + decimal(
        a.wildcard_signature_cname_count as nat,
    )
    ||| a.resolver_disagreement && x == "resolver_disagreement=true"@
    ||| a.dead_zone matches Some(z) && x == "dead_zone="@ + z
    ||| a.flaky_zone matches Some(z) && x == "flaky_zone="@ + z
    ||| a.cdn matches Some(p) && x == "cdn="@ + p
    ||| a.confidence matches Some(c) && x == "confidence="@ + c.text()
}

/// An explanation names exactly the evidence that there is.
#[verifier::rlimit(40)]
pub proof fn law_explanations_name_the_evidence(a: AssetView, x: Seq<char>)
    ensures
        explanation(a).contains(x) <==> explains(a, x),
{
    let v0 = Seq::<Seq<char>>::empty();
    let i1 = field("root="@, a.wildcard_root);
    let v1 = with_item(v0, i1);
    lemma_item_kept(v0, i1, x);
    let i2 = field(
        "reason="@,
        match a.wildcard_reason {
            Some(r) => Some(reason_name(r)),
            None => None,
        },
    );
    let v2 = with_item(v1, i2);
    lemma_item_kept(v1, i2, x);
    let i3 = field(
        "cname="@,
        if a.wildcard_reason == Some(WildcardReason::CnameMatch) {
            matching_cname(a)
        } else {
            None
        },
    );
    let v3 = with_item(v2, i3);
    lemma_item_kept(v2, i3, x);
    let i4 = count_field("ip_overlap="@, a.wildcard_ip_overlap_count);
    let v4 = with_item(v3, i4);
    lemma_item_kept(v3, i4, x);
    let i5 = count_field("cname_overlap="@, a.wildcard_cname_overlap_count);
    let v5 = with_item(v4, i5);
    lemma_item_kept(v4, i5, x);
    let i6 = count_field("host_ips="@, a.wildcard_host_ip_count);
    let v6 = with_item(v5, i6);
    lemma_item_kept(v5, i6, x);
    let i7 = count_field("signature_ips="@, a.wildcard_signature_ip_count);
    let v7 = with_item(v6, i7);
    lemma_item_kept(v6, i7, x);
    let i8 = count_field("signature_cnames="@, a.wildcard_signature_cname_count);
    let v8 = with_item(v7, i8);
    lemma_item_kept(v7, i8, x);
    let i9 = if a.resolver_disagreement {
        Some("resolver_disagreement=true"@)
    } else {
        None
    };
    let v9 = with_item(v8, i9);
    lemma_item_kept(v8, i9, x);
    let i10 = field("dead_zone="@, a.dead_zone);
    let v10 = with_item(v9, i10);
    lemma_item_kept(v9, i10, x);
    let i11 = field("flaky_zone="@, a.flaky_zone);
    let v11 = with_item(v10, i11);
    lemma_item_kept(v10, i11, x);
    let i12 = field("cdn="@, a.cdn);
    let v12 = with_item(v11, i12);
    lemma_item_kept(v11, i12, x);
    let i13 = field(
        "confidence="@,
        match a.confidence {
            Some(c) => Some(c.text()),
            None => None,
        },
    );
    lemma_item_kept(v12, i13, x);
    assert(explanation(a) == with_item(v12, i13));
    assert(!v0.contains(x));
}

/// The line of a DNS result begins with its form. It is nothing but that unless an
/// explanation is asked for, and then names class and status as well.
pub proof fn law_result_lines_begin_with_the_form(a: AssetView, no_port: bool)
    ensures
        result_line(a, no_port, false) == shown_form(a, no_port),
        ({
            let head = shown_form(a, no_port) + seq!['\t'] + bucket_name(bucket_of(a)) + seq!['\t']
                + status_name(a.dns);
            let line = result_line(a, no_port, true);
            &&& line.len() >= head.len() && line.take(head.len() as int) == head
            &&& explanation(a).len() > 0 ==> line.skip(head.len() as int) == seq!['\t'] + joined(
                explanation(a),
                " "@,
            )
            &&& explanation(a).len() == 0 ==> line == head
        }),
{
    let head = shown_form(a, no_port) + seq!['\t'] + bucket_name(bucket_of(a)) + seq!['\t']
        + status_name(a.dns);
    let line = result_line(a, no_port, true);
    assert(line.take(head.len() as int) =~= head);
    assert(explanation(a).len() > 0 ==> line.skip(head.len() as int) =~= seq!['\t'] + joined(
        explanation(a),
        " "@,
    ));
}

/// Classes, reasons and check results have names of their own.
pub proof fn law_names_are_distinct(
    b1: DnsBucket,
    b2: DnsBucket,
    r1: WildcardReason,
    r2: WildcardReason,
    h1: ResolverHealthStatus,
    h2: ResolverHealthStatus,
)
    ensures
        bucket_name(b1) == bucket_name(b2) <==> b1 == b2,
        reason_name(r1) == reason_name(r2) <==> r1 == r2,
        health_name(h1) == health_name(h2) <==> h1 == h2,
        bucket_name(DnsBucket::Trusted) == "trusted"@,
        bucket_name(DnsBucket::Review) == "review"@,
        health_name(ResolverHealthStatus::Healthy) == "ok"@,
{
    reveal_strlit("trusted");
    reveal_strlit("review");
    reveal_strlit("ignore");
    reveal_strlit("ip_overlap");
    reveal_strlit("cname_match");
    reveal_strlit("timeout_inferred");
    reveal_strlit("ok");
    reveal_strlit("warn");
    reveal_strlit("bad");
    reveal_strlit("error");
    assert("review"@[0] == 'r' && "ignore"@[0] == 'i');
    assert("ip_overlap"@.len() == 10 && "cname_match"@.len() == 11 && "timeout_inferred"@.len()
        == 16);
    assert("ok"@.len() == 2 && "warn"@.len() == 4 && "bad"@.len() == 3 && "error"@.len() == 5);
}

/// Assets with certain statuses are selected whatever their class is, and those of a class
/// whatever their status is.
pub proof fn law_selection_is_by_class_or_status(a: AssetView, v: Vec<DnsStatus>)
    ensures
        DnsSelection::Statuses(v).selects(a) <==> v@.contains(a.dns),
        DnsSelection::Class(DnsOutputClass::All).selects(a),
        DnsSelection::Class(DnsOutputClass::Trusted).selects(a) ==> a.dns is Resolved,
{
}

/// Whether a text names a status.
pub open spec fn names_some(t: Seq<char>) -> bool {
    exists|s: DnsStatus| #[trigger] names_status(t, s)
}

/// Of texts the first one is reported that names no status, if there is one.
pub proof fn law_first_unknown_status_is_reported(v: Seq<Seq<char>>, n: int)
    requires
        0 <= n <= v.len(),
    ensures
        first_unknown(v, n) is None <==> forall|i: int| 0 <= i < n ==> names_some(#[trigger] v[i]),
        first_unknown(v, n) matches Some(k) ==> 0 <= k < n && !names_some(v[k]) && forall|i: int|
            0 <= i < k ==> names_some(#[trigger] v[i]),
    decreases n,
{
    if n > 0 {
        law_first_unknown_status_is_reported(v, n - 1);
        let t = v[n - 1];
        if let Some(k) = first_unknown(v, n - 1) {
            assert(!names_some(v[k]));
        } else {
            assert(first_unknown(v, n) is None <==> names_some(t));
        }
    }
}

} // verus!

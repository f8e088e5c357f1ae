//! The asset record and the states that the later stages attach to it.

use std::collections::hash_map::DefaultHasher;
use std::hash::Hasher;

use vstd::prelude::*;
use vstd::std_specs::hash::DefaultHasherAdditionalSpecFns;
use vstd::utf8::encode_utf8;

use crate::ip::{copy_ips, IpAddr};
use crate::numbers::{decimal, decimal_of, padded_hex, padded_hex_of};
use crate::text::{
    chars_of, contains_any, copy_opt, copy_texts, has_any, opt_text, texts, CharClass,
};

verus! {

/// Classification of an asset.
#[derive(Debug, Clone, Copy, PartialEq, Eq, Hash, Structural)]
pub enum AssetKind {
    Apex,
    Subdomain,
    Wildcard,
    Ip,
    Garbage,
}

impl AssetKind {
    /// The name of the kind.
    pub open spec fn name(self) -> Seq<char> {
        match self {
            AssetKind::Apex => "apex"@,
            AssetKind::Subdomain => "subdomain"@,
            AssetKind::Wildcard => "wildcard"@,
            AssetKind::Ip => "ip"@,
            AssetKind::Garbage => "garbage"@,
        }
    }

    pub fn as_str(&self) -> (r: &'static str)
        ensures
            r@ == self.name(),
    {
        match self {
            AssetKind::Apex => "apex",
            AssetKind::Subdomain => "subdomain",
            AssetKind::Wildcard => "wildcard",
            AssetKind::Ip => "ip",
            AssetKind::Garbage => "garbage",
        }
    }
}

/// DNS liveness of an asset after validation.
///
/// Wildcards known by their addresses (`WildcardIp`) are told apart from those
/// known by a CNAME target (`WildcardCname`). A host whose answers only partly
/// overlap a wildcard signature is `MixedWildcard`.
#[derive(Debug, Clone, Copy, PartialEq, Eq, Hash, Structural)]
pub enum DnsStatus {
    Unknown,
    Resolved,
    Unresolved,
    WildcardIp,
    WildcardCname,
    MixedWildcard,
    Shaky,
    Timeout,
    Error,
}

impl Default for DnsStatus {
    fn default() -> (r: Self)
        ensures
            r == DnsStatus::Unknown,
    {
        DnsStatus::Unknown
    }
}

impl DnsStatus {
    pub open spec fn wildcard(self) -> bool {
        self is WildcardIp || self is WildcardCname || self is MixedWildcard
    }

    /// Tests for one of the three wildcard verdicts.
    pub fn is_wildcard(&self) -> (r: bool)
        ensures
            r == self.wildcard(),
    {
        matches!(self, DnsStatus::WildcardIp | DnsStatus::WildcardCname | DnsStatus::MixedWildcard)
    }
}

/// Why a DNS result was classified as a wildcard.
#[derive(Debug, Clone, Copy, PartialEq, Eq, Hash, Structural)]
pub enum WildcardReason {
    IpOverlap,
    CnameMatch,
    TimeoutInferred,
}

/// Scope match outcome.
#[derive(Debug, Clone, Copy, PartialEq, Eq, Structural)]
pub enum ScopeStatus {
    Unknown,
    InScope,
    OutOfScope,
}

impl Default for ScopeStatus {
    fn default() -> (r: Self)
        ensures
            r == ScopeStatus::Unknown,
    {
        ScopeStatus::Unknown
    }
}

/// A confidence between zero and one, as an exact fraction.
#[derive(Debug, Clone, Copy, PartialEq, Eq, Structural)]
pub struct Confidence {
    num: u128,
    den: u128,
}

impl Confidence {
    #[verifier::type_invariant]
    closed spec fn inv(self) -> bool {
        0 < self.den <= 0x100_0000_0000_0000_0000 && self.num <= self.den
    }

    /// The numerator.
    pub closed spec fn num(self) -> nat {
        self.num as nat
    }

    /// The denominator.
    pub closed spec fn den(self) -> nat {
        self.den as nat
    }

    /// The confidence `num / den`.
    pub closed spec fn fraction(num: nat, den: nat) -> Confidence {
        Confidence { num: num as u128, den: den as u128 }
    }

    /// What `fraction` makes, where machine numbers can hold it.
    pub proof fn lemma_fraction(num: nat, den: nat)
        requires
            num <= u128::MAX,
            den <= u128::MAX,
        ensures
            Confidence::fraction(num, den).num() == num,
            Confidence::fraction(num, den).den() == den,
    {
    }

    /// Whether the confidence is at least `n` hundredths.
    pub open spec fn at_least(self, n: nat) -> bool {
        self.num() * 100 >= self.den() * n
    }

    /// The confidence `num / den`.
    pub fn new(num: u128, den: u128) -> (r: Self)
        requires
            0 < den <= 0x100_0000_0000_0000_0000,
            num <= den,
        ensures
            r == Confidence::fraction(num as nat, den as nat),
            r.num() == num,
            r.den() == den,
    {
        Confidence { num, den }
    }

    /// The confidence of `h` hundredths.
    pub fn hundredths(h: u8) -> (r: Self)
        requires
            h <= 100,
        ensures
            r == Confidence::fraction(h as nat, 100),
            r.num() == h,
            r.den() == 100,
    {
        Confidence { num: h as u128, den: 100 }
    }

    /// The numerator.
    pub fn numerator(self) -> (r: u128)
        ensures
            r == self.num(),
    {
        self.num
    }

    /// The denominator.
    pub fn denominator(self) -> (r: u128)
        ensures
            r == self.den(),
            r > 0,
    {
        proof {
            use_type_invariant(&self);
        }
        self.den
    }

    /// Tests whether the confidence is at least `n` hundredths.
    pub fn is_at_least(self, n: u8) -> (r: bool)
        ensures
            r == self.at_least(n as nat),
    {
        proof {
            use_type_invariant(&self);
            assert(self.den * n <= self.den * 255) by (nonlinear_arith)
                requires
                    n <= 255,
            ;
        }
        self.num * 100 >= self.den * n as u128
    }

    /// The nearest number of hundredths; halfway, the even one.
    pub open spec fn nearest_hundredth(self) -> nat {
        let q = self.num() * 100 / self.den();
        let rest = self.num() * 100 % self.den();
        if rest * 2 > self.den() || (rest * 2 == self.den() && q % 2 == 1) {
            q + 1
        } else {
            q
        }
    }

    /// The confidence with two decimals.
    pub open spec fn text(self) -> Seq<char> {
        let h = self.nearest_hundredth();
        decimal(h / 100) + seq!['.'] + decimal(h / 10 % 10) + decimal(h % 10)
    }

    /// Writes the confidence with two decimals.
    pub fn to_text(self) -> (r: String)
        ensures
            r@ == self.text(),
    {
        proof {
            use_type_invariant(&self);
        }
        let q: u128 = self.num * 100 / self.den;
        let rest: u128 = self.num * 100 % self.den;
        let up = rest * 2 > self.den || (rest * 2 == self.den && q % 2 == 1);
        let h: u128 = if up {
            q + 1
        } else {
            q
        };
        let mut out = decimal_of(h / 100);
        out.push('.');
        out.append(decimal_of(h / 10 % 10).as_str());
        out.append(decimal_of(h % 10).as_str());
        assert(out@ =~= self.text());
        out
    }
}

/// A canonical asset record.
#[derive(Debug, Clone)]
pub struct Asset {
    /// Input string before any cleaning.
    pub raw: String,
    /// Canonical host with its port, if it has one; a hexadecimal digest for
    /// garbage.
    pub canonical: String,
    pub kind: AssetKind,
    /// Registrable domain of an apex, a subdomain or a wildcard.
    pub registrable: Option<String>,
    /// Explicit port, unless it is the scheme's default.
    pub port: Option<u16>,
    /// Scheme of the input.
    pub scheme: Option<String>,
    /// Explanation of garbage.
    pub reason: Option<String>,
    /// Keys of the wildcard assets that cover this host.
    pub covered_by: Vec<String>,
    pub dns: DnsStatus,
    /// Addresses found during DNS validation.
    pub ips: Vec<IpAddr>,
    /// CNAME chain in resolution order.
    pub cnames: Vec<String>,
    /// Wildcard root that explains a wildcard verdict.
    pub wildcard_root: Option<String>,
    /// Signal behind a wildcard verdict.
    pub wildcard_reason: Option<WildcardReason>,
    /// CNAME target that explains a wildcard verdict.
    pub wildcard_cname: Option<String>,
    pub wildcard_ip_overlap_count: usize,
    pub wildcard_cname_overlap_count: usize,
    pub wildcard_host_ip_count: usize,
    pub wildcard_signature_ip_count: usize,
    pub wildcard_signature_cname_count: usize,
    /// Whether resolvers disagreed on answer and NXDOMAIN.
    pub resolver_disagreement: bool,
    /// Dead ancestor zone that stopped validation.
    pub dead_zone: Option<String>,
    /// Flaky parent zone that stopped validation.
    pub flaky_zone: Option<String>,
    /// CDN provider.
    pub cdn: Option<String>,
    /// Confidence in the DNS verdict.
    pub confidence: Option<Confidence>,
    pub scope: ScopeStatus,
}

/// What an asset record says, with its strings as character sequences.
pub struct AssetView {
    pub raw: Seq<char>,
    pub canonical: Seq<char>,
    pub kind: AssetKind,
    pub registrable: Option<Seq<char>>,
    pub port: Option<u16>,
    pub scheme: Option<Seq<char>>,
    pub reason: Option<Seq<char>>,
    pub covered_by: Seq<Seq<char>>,
    pub dns: DnsStatus,
    pub ips: Seq<IpAddr>,
    pub cnames: Seq<Seq<char>>,
    pub wildcard_root: Option<Seq<char>>,
    pub wildcard_reason: Option<WildcardReason>,
    pub wildcard_cname: Option<Seq<char>>,
    pub wildcard_ip_overlap_count: usize,
    pub wildcard_cname_overlap_count: usize,
    pub wildcard_host_ip_count: usize,
    pub wildcard_signature_ip_count: usize,
    pub wildcard_signature_cname_count: usize,
    pub resolver_disagreement: bool,
    pub dead_zone: Option<Seq<char>>,
    pub flaky_zone: Option<Seq<char>>,
    pub cdn: Option<Seq<char>>,
    pub confidence: Option<Confidence>,
    pub scope: ScopeStatus,
}

impl View for Asset {
    type V = AssetView;

    open spec fn view(&self) -> AssetView {
        AssetView {
            raw: self.raw@,
            canonical: self.canonical@,
            kind: self.kind,
            registrable: opt_text(self.registrable),
            port: self.port,
            scheme: opt_text(self.scheme),
            reason: opt_text(self.reason),
            covered_by: texts(self.covered_by@),
            dns: self.dns,
            ips: self.ips@,
            cnames: texts(self.cnames@),
            wildcard_root: opt_text(self.wildcard_root),
            wildcard_reason: self.wildcard_reason,
            wildcard_cname: opt_text(self.wildcard_cname),
            wildcard_ip_overlap_count: self.wildcard_ip_overlap_count,
            wildcard_cname_overlap_count: self.wildcard_cname_overlap_count,
            wildcard_host_ip_count: self.wildcard_host_ip_count,
            wildcard_signature_ip_count: self.wildcard_signature_ip_count,
            wildcard_signature_cname_count: self.wildcard_signature_cname_count,
            resolver_disagreement: self.resolver_disagreement,
            dead_zone: opt_text(self.dead_zone),
            flaky_zone: opt_text(self.flaky_zone),
            cdn: opt_text(self.cdn),
            confidence: self.confidence,
            scope: self.scope,
        }
    }
}

/// What a list of assets says.
pub open spec fn views(v: Seq<Asset>) -> Seq<AssetView> {
    v.map_values(|a: Asset| a@)
}

/// The record of an asset that no later stage has touched.
pub open spec fn fresh(
    raw: Seq<char>,
    canonical: Seq<char>,
    kind: AssetKind,
    registrable: Option<Seq<char>>,
    port: Option<u16>,
    scheme: Option<Seq<char>>,
    reason: Option<Seq<char>>,
) -> AssetView {
    AssetView {
        raw,
        canonical,
        kind,
        registrable,
        port,
        scheme,
        reason,
        covered_by: Seq::empty(),
        dns: DnsStatus::Unknown,
        ips: Seq::empty(),
        cnames: Seq::empty(),
        wildcard_root: None,
        wildcard_reason: None,
        wildcard_cname: None,
        wildcard_ip_overlap_count: 0,
        wildcard_cname_overlap_count: 0,
        wildcard_host_ip_count: 0,
        wildcard_signature_ip_count: 0,
        wildcard_signature_cname_count: 0,
        resolver_disagreement: false,
        dead_zone: None,
        flaky_zone: None,
        cdn: None,
        confidence: None,
        scope: ScopeStatus::Unknown,
    }
}

/// The record of an input that is no asset.
pub open spec fn garbage_view(raw: Seq<char>, reason: Seq<char>) -> AssetView {
    fresh(raw, digest(raw), AssetKind::Garbage, None, None, None, Some(reason))
}

/// Sixteen hexadecimal digits of the default hash of a text: its bytes, then 255.
pub open spec fn digest(s: Seq<char>) -> Seq<char> {
    padded_hex(DefaultHasher::spec_finish(seq![encode_utf8(s), seq![255u8]]) as nat, 16)
}

fn short_digest(input: &str) -> (r: String)
    ensures
        r@ == digest(input@),
{
    let mut h = DefaultHasher::new();
    h.write(input.as_bytes());
    let end: [u8; 1] = [255u8];
    h.write(&end);
    assert(end@ =~= seq![255u8]);
    assert(h@ =~= seq![encode_utf8(input@), seq![255u8]]);
    padded_hex_of(h.finish())
}

impl AssetView {
    /// The key under which equal assets meet: kind, canonical form and port.
    pub open spec fn key(self) -> Seq<char> {
        let base = self.kind.name() + seq![':'];
        if self.kind is Garbage {
            base + self.canonical
        } else {
            match self.port {
                None => base + self.canonical,
                Some(p) => if self.kind is Ip && has_any(self.canonical, CharClass::Is(':')) {
                    base + seq!['['] + self.canonical + seq![']', ':'] + decimal(p as nat)
                } else {
                    base + self.canonical + seq![':'] + decimal(p as nat)
                },
            }
        }
    }

    pub open spec fn host(self) -> bool {
        self.kind is Apex || self.kind is Subdomain || self.kind is Ip
    }
}

impl Asset {
    /// An asset that no later stage has touched.
    pub fn fresh(
        raw: String,
        canonical: String,
        kind: AssetKind,
        registrable: Option<String>,
        port: Option<u16>,
        scheme: Option<String>,
        reason: Option<String>,
    ) -> (r: Self)
        ensures
            r@ == fresh(
                raw@,
                canonical@,
                kind,
                opt_text(registrable),
                port,
                opt_text(scheme),
                opt_text(reason),
            ),
    {
        let r = Asset {
            raw,
            canonical,
            kind,
            registrable,
            port,
            scheme,
            reason,
            covered_by: Vec::new(),
            dns: DnsStatus::Unknown,
            ips: Vec::new(),
            cnames: Vec::new(),
            wildcard_root: None,
            wildcard_reason: None,
            wildcard_cname: None,
            wildcard_ip_overlap_count: 0,
            wildcard_cname_overlap_count: 0,
            wildcard_host_ip_count: 0,
            wildcard_signature_ip_count: 0,
            wildcard_signature_cname_count: 0,
            resolver_disagreement: false,
            dead_zone: None,
            flaky_zone: None,
            cdn: None,
            confidence: None,
            scope: ScopeStatus::Unknown,
        };
        assert(r@.covered_by =~= Seq::<Seq<char>>::empty());
        assert(r@.cnames =~= Seq::<Seq<char>>::empty());
        r
    }

    /// The record of an input that is no asset.
    pub fn garbage(raw: String, reason: String) -> (r: Self)
        ensures
            r@ == garbage_view(raw@, reason@),
    {
        let digest = short_digest(raw.as_str());
        Asset::fresh(raw, digest, AssetKind::Garbage, None, None, None, Some(reason))
    }

    /// Stable key used for deduplication and cross-stage reference.
    pub fn canonical_key(&self) -> (r: String)
        ensures
            r@ == self@.key(),
    {
        let mut out = String::new();
        out.append(self.kind.as_str());
        out.push(':');
        if self.kind == AssetKind::Garbage {
            out.append(self.canonical.as_str());
        } else {
            match self.port {
                None => {
                    out.append(self.canonical.as_str());
                },
                Some(p) => {
                    if self.kind == AssetKind::Ip && contains_any(
                        chars_of(self.canonical.as_str()).as_slice(),
                        CharClass::Is(':'),
                    ) {
                        out.push('[');
                        out.append(self.canonical.as_str());
                        out.push(']');
                        out.push(':');
                    } else {
                        out.append(self.canonical.as_str());
                        out.push(':');
                    }
                    out.append(decimal_of(p as u128).as_str());
                },
            }
        }
        assert(out@ =~= self@.key());
        out
    }

    /// Tests for an apex, a subdomain or an IP address.
    pub fn is_host(&self) -> (r: bool)
        ensures
            r == self@.host(),
    {
        matches!(self.kind, AssetKind::Apex | AssetKind::Subdomain | AssetKind::Ip)
    }

    /// A copy of the asset.
    pub fn duplicate(&self) -> (r: Self)
        ensures
            r@ == self@,
    {
        let ips = copy_ips(&self.ips);
        Asset {
            raw: self.raw.clone(),
            canonical: self.canonical.clone(),
            kind: self.kind,
            registrable: copy_opt(&self.registrable),
            port: self.port,
            scheme: copy_opt(&self.scheme),
            reason: copy_opt(&self.reason),
            covered_by: copy_texts(&self.covered_by),
            dns: self.dns,
            ips,
            cnames: copy_texts(&self.cnames),
            wildcard_root: copy_opt(&self.wildcard_root),
            wildcard_reason: self.wildcard_reason,
            wildcard_cname: copy_opt(&self.wildcard_cname),
            wildcard_ip_overlap_count: self.wildcard_ip_overlap_count,
            wildcard_cname_overlap_count: self.wildcard_cname_overlap_count,
            wildcard_host_ip_count: self.wildcard_host_ip_count,
            wildcard_signature_ip_count: self.wildcard_signature_ip_count,
            wildcard_signature_cname_count: self.wildcard_signature_cname_count,
            resolver_disagreement: self.resolver_disagreement,
            dead_zone: copy_opt(&self.dead_zone),
            flaky_zone: copy_opt(&self.flaky_zone),
            cdn: copy_opt(&self.cdn),
            confidence: self.confidence,
            scope: self.scope,
        }
    }
}

/// The shown confidence is the nearest number of hundredths, and is shown exactly where it is
/// one.
pub proof fn law_shown_confidence_is_nearest(c: Confidence)
    requires
        c.den() > 0,
    ensures
        ({
            let h = c.nearest_hundredth() as int;
            let x = c.num() as int * 100;
            let d = c.den() as int;
            &&& 2 * (x - h * d) <= d
            &&& 2 * (h * d - x) <= d
            &&& x % d == 0 ==> h * d == x
        }),
{
    let x = c.num() as int * 100;
    let d = c.den() as int;
    vstd::arithmetic::div_mod::lemma_fundamental_div_mod(x, d);
    let q = x / d;
    assert(d * q == q * d) by (nonlinear_arith);
    assert((q + 1) * d == q * d + d) by (nonlinear_arith);
}

/// A confidence is at least some hundredths exactly if the fraction is no smaller.
pub proof fn law_confidence_is_compared_exactly(num: nat, den: nat, n: nat)
    requires
        0 < den <= u128::MAX,
        num <= u128::MAX,
        num <= den,
    ensures
        Confidence::fraction(num, den).at_least(n) <==> num * 100 >= den * n,
{
    Confidence::lemma_fraction(num, den);
}

} // verus!

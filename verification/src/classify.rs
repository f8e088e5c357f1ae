//! Classification of a normalized input into a canonical asset.

use vstd::prelude::*;
use vstd::slice::slice_subrange;
use vstd::utf8::encode_utf8;

use crate::ip::{ip_value, law_addresses_are_read_back, lemma_address_text, read_ip};
use crate::model::{fresh, garbage_view, Asset, AssetKind, AssetView};
use crate::normalize::{
    accepted, canonical_value, host_and_port, is_port, law_addresses_are_normal,
    law_names_are_lowered, lemma_normal_port, lemma_plain_chars, lower_string, normal_form,
    normalize, plain_host, plain_label, with_star, Normalized, NormalizedView,
};
use crate::psl::{ends_at_label, registrable_part, SuffixList};
use crate::text::{
    char_texts, chars_of, contains_any, contains_only, find_text, has_any, has_only, has_substring,
    is_lower, lemma_covered_by_pieces, lemma_index_from, lemma_lowered, lemma_no_empty_piece,
    lemma_unchanged_by_trim, lowered, occurs_at, opt_text, pieces, same_str, split, starts_with,
    string_of, trim, trimmed, CharClass,
};

verus! {

/// Whether a text is a host label: one to 63 lowercase letters, digits and hyphens,
/// with no hyphen at either end.
pub open spec fn valid_label(t: Seq<char>) -> bool {
    &&& 1 <= t.len() <= 63
    &&& CharClass::LabelEdge.has(t[0])
    &&& CharClass::LabelEdge.has(t.last())
    &&& has_only(t, CharClass::LabelInside)
}

/// A host without a leading `*.`.
pub open spec fn wildcard_base(host: Seq<char>) -> Seq<char> {
    if "*."@.is_prefix_of(host) {
        host.skip(2)
    } else {
        host
    }
}

/// Whether a text is no domain name, with or without a leading `*.`.
pub open spec fn malformed(host: Seq<char>) -> bool {
    let labels = pieces(wildcard_base(host), CharClass::Is('.'));
    ||| host.len() == 0
    ||| encode_utf8(host).len() > 253
    ||| host[0] == '.'
    ||| host.last() == '.'
    ||| has_substring(host, ".."@)
    ||| has_any(host, CharClass::Is('@'))
    ||| has_any(host, CharClass::Whitespace)
    ||| has_any(host, CharClass::Is('*')) && !("*."@.is_prefix_of(host))
    ||| labels.len() < 2
    ||| exists|i: int| 0 <= i < labels.len() && !valid_label(#[trigger] labels[i])
}

/// The registrable domain, given the part of the name that the suffix rules pick.
pub open spec fn registrable_form(part: Option<Seq<char>>) -> Option<Seq<char>> {
    match part {
        Some(d) => if has_any(d, CharClass::Is('.')) {
            Some(lowered(d))
        } else {
            None
        },
        None => None,
    }
}

/// The name of which the registrable domain is asked.
pub open spec fn domain_base(n: NormalizedView) -> Seq<char> {
    wildcard_base(trimmed(n.host, CharClass::Whitespace))
}

/// The asset that a normalized input is, given its registrable domain.
pub open spec fn classified(n: NormalizedView, registrable: Option<Seq<char>>) -> AssetView {
    let host = trimmed(n.host, CharClass::Whitespace);
    let wildcard = "*."@.is_prefix_of(host);
    let base = wildcard_base(host);
    if !n.valid {
        garbage_view(
            n.raw,
            match n.reason {
                Some(r) => r,
                None => "invalid-syntax"@,
            },
        )
    } else if host.len() == 0 {
        garbage_view(n.raw, "empty"@)
    } else if ip_value(host) is Some {
        fresh(
            n.raw,
            host_and_port(ip_value(host)->0.text(), n.port),
            AssetKind::Ip,
            None,
            n.port,
            n.scheme,
            None,
        )
    } else if malformed(host) {
        garbage_view(n.raw, "invalid-domain-syntax"@)
    } else if base[0] == '.' || has_any(base, CharClass::Is('*')) {
        garbage_view(n.raw, "invalid-wildcard"@)
    } else {
        match registrable {
            None => garbage_view(
                n.raw,
                if wildcard {
                    "invalid-wildcard-domain"@
                } else {
                    "invalid-domain"@
                },
            ),
            Some(d) => fresh(
                n.raw,
                host_and_port(host, n.port),
                if wildcard {
                    AssetKind::Wildcard
                } else if base == d {
                    AssetKind::Apex
                } else {
                    AssetKind::Subdomain
                },
                Some(d),
                n.port,
                n.scheme,
                None,
            ),
        }
    }
}

/// The asset that a normalized input is under some suffix rules.
pub open spec fn asset_of(n: NormalizedView, rules: Map<Seq<char>, bool>) -> AssetView {
    classified(n, registrable_form(registrable_part(rules, domain_base(n))))
}

/// The asset that a raw input is under some suffix rules.
pub open spec fn asset_of_input(raw: Seq<char>, rules: Map<Seq<char>, bool>) -> AssetView {
    asset_of(normal_form(raw), rules)
}

fn is_valid_label(t: &[char]) -> (r: bool)
    ensures
        r == valid_label(t@),
{
    let n: usize = t.len();
    n >= 1 && n <= 63 && CharClass::LabelEdge.test(t[0]) && CharClass::LabelEdge.test(t[n - 1])
        && contains_only(t, CharClass::LabelInside)
}

fn cut_wildcard(host: &[char]) -> (r: &[char])
    ensures
        r@ == wildcard_base(host@),
{
    proof {
        reveal_strlit("*.");
    }
    let n: usize = host.len();
    if starts_with(host, "*.") {
        let r = slice_subrange(host, 2, n);
        assert(r@ =~= host@.skip(2));
        r
    } else {
        host
    }
}

fn has_invalid_domain_syntax(host: &[char]) -> (r: bool)
    ensures
        r == malformed(host@),
{
    proof {
        reveal_strlit("..");
    }
    let n: usize = host.len();
    if n == 0 {
        return true;
    }
    let s = string_of(host);
    if s.as_str().as_bytes().len() > 253 {
        return true;
    }
    if host[0] == '.' || host[n - 1] == '.' || find_text(host, "..").is_some() {
        return true;
    }
    if contains_any(host, CharClass::Is('@')) || contains_any(host, CharClass::Whitespace) {
        return true;
    }
    if contains_any(host, CharClass::Is('*')) && !starts_with(host, "*.") {
        return true;
    }
    let labels = split(cut_wildcard(host), CharClass::Is('.'));
    let ghost all = pieces(wildcard_base(host@), CharClass::Is('.'));
    if labels.len() < 2 {
        return true;
    }
    let mut i: usize = 0;
    while i < labels.len()
        invariant
            i <= labels@.len(),
            char_texts(labels@) == all,
            all == pieces(wildcard_base(host@), CharClass::Is('.')),
            forall|j: int| 0 <= j < i ==> valid_label(#[trigger] all[j]),
        decreases labels.len() - i,
    {
        assert(labels@[i as int]@ == all[i as int]);
        if !is_valid_label(labels[i].as_slice()) {
            return true;
        }
        i += 1;
    }
    false
}

/// The registrable domain, given the part of the name that the suffix rules pick.
pub fn registrable_from(part: Option<String>) -> (r: Option<String>)
    ensures
        opt_text(r) == registrable_form(opt_text(part)),
{
    match part {
        Some(d) => {
            if contains_any(chars_of(d.as_str()).as_slice(), CharClass::Is('.')) {
                Some(lower_string(d.as_str()))
            } else {
                None
            }
        },
        None => None,
    }
}

fn registrable_domain(host: &str, list: &SuffixList) -> (r: Option<String>)
    ensures
        opt_text(r) == registrable_form(registrable_part(list@, host@)),
        is_lower(host@) ==> (r matches Some(d) ==> ends_at_label(d@, host@)),
{
    let part = list.domain(host);
    proof {
        if part is Some && is_lower(host@) {
            lemma_end_is_lower(part->0@, host@);
            lemma_lowered(part->0@);
        }
    }
    registrable_from(part)
}

proof fn lemma_end_is_lower(d: Seq<char>, name: Seq<char>)
    requires
        is_lower(name),
        ends_at_label(d, name),
    ensures
        is_lower(d),
{
    if d != name {
        let p = seq!['.'] + d;
        assert(p.is_suffix_of(name));
        assert(name.subrange(name.len() - p.len(), name.len() as int) == p);
        assert forall|i: int| 0 <= i < d.len() implies !('A' <= #[trigger] d[i] <= 'Z') by {
            assert(d[i] == p[i + 1]);
            assert(p[i + 1] == name[name.len() - p.len() + i + 1]);
        }
    }
}

/// A well-formed domain name is made of lowercase letters, digits, hyphens and dots.
pub proof fn lemma_well_formed_chars(host: Seq<char>)
    requires
        !malformed(host),
    ensures
        forall|i: int|
            0 <= i < wildcard_base(host).len() ==> CharClass::LabelInside.has(
                #[trigger] wildcard_base(host)[i],
            ) || wildcard_base(host)[i] == '.',
        is_lower(wildcard_base(host)),
{
    let base = wildcard_base(host);
    let labels = pieces(base, CharClass::Is('.'));
    assert forall|i: int| 0 <= i < labels.len() implies has_only(
        #[trigger] labels[i],
        CharClass::LabelInside,
    ) by {
        assert(valid_label(labels[i]));
    }
    lemma_covered_by_pieces(base, CharClass::Is('.'), CharClass::LabelInside, 0);
}

/// Classifies a normalized input, given its registrable domain.
pub fn classify_given(norm: Normalized, registrable: Option<String>) -> (r: Asset)
    ensures
        r@ == classified(norm@, opt_text(registrable)),
{
    if !norm.valid {
        let reason = match norm.reason {
            Some(s) => s,
            None => "invalid-syntax",
        };
        return Asset::garbage(norm.raw, reason.to_string());
    }
    let chars = chars_of(norm.host.as_str());
    let host = trim(chars.as_slice(), CharClass::Whitespace);
    if host.len() == 0 {
        return Asset::garbage(norm.raw, "empty".to_string());
    }
    if let Some(ip) = read_ip(host) {
        let canonical = canonical_value(ip.to_text().as_str(), norm.port);
        return Asset::fresh(
            norm.raw,
            canonical,
            AssetKind::Ip,
            None,
            norm.port,
            norm.scheme,
            None,
        );
    }
    if has_invalid_domain_syntax(host) {
        return Asset::garbage(norm.raw, "invalid-domain-syntax".to_string());
    }
    let wildcard = starts_with(host, "*.");
    let base = cut_wildcard(host);
    proof {
        crate::text::lemma_split_from(base@, CharClass::Is('.'), 0);
        let labels = pieces(base@, CharClass::Is('.'));
        assert(valid_label(labels[0]));
        lemma_index_from(base@, CharClass::Is('.'), 0);
    }
    if base[0] == '.' || contains_any(base, CharClass::Is('*')) {
        return Asset::garbage(norm.raw, "invalid-wildcard".to_string());
    }
    match registrable {
        None => {
            let reason = if wildcard {
                "invalid-wildcard-domain"
            } else {
                "invalid-domain"
            };
            Asset::garbage(norm.raw, reason.to_string())
        },
        Some(d) => {
            let kind = if wildcard {
                AssetKind::Wildcard
            } else if same_str(string_of(base).as_str(), d.as_str()) {
                AssetKind::Apex
            } else {
                AssetKind::Subdomain
            };
            let canonical = canonical_value(string_of(host).as_str(), norm.port);
            Asset::fresh(norm.raw, canonical, kind, Some(d), norm.port, norm.scheme, None)
        },
    }
}

/// Classifies a normalized input under a suffix list. The registrable domain of a
/// subdomain is a proper end of it from the beginning of a label on.
pub fn classify(norm: Normalized, list: &SuffixList) -> (r: Asset)
    ensures
        r@ == asset_of(norm@, list@),
        r@.registrable matches Some(d) ==> ends_at_label(d, domain_base(norm@)),
        r@.kind is Subdomain ==> (seq!['.'] + r@.registrable->0).is_suffix_of(domain_base(norm@)),
{
    let chars = chars_of(norm.host.as_str());
    let base = cut_wildcard(trim(chars.as_slice(), CharClass::Whitespace));
    let registrable = registrable_domain(string_of(base).as_str(), list);
    proof {
        let host = trimmed(norm.host@, CharClass::Whitespace);
        if !malformed(host) {
            lemma_well_formed_chars(host);
        }
    }
    classify_given(norm, registrable)
}

/// Normalizes and classifies a raw input under a suffix list. A name that is in its final
/// form but for capitals, and is no address, is classified as that name in lowercase, with
/// or without a port and a leading `*.`.
pub fn classify_str(raw: &str, list: &SuffixList) -> (r: Asset)
    ensures
        r@ == asset_of_input(raw@, list@),
        r@.registrable matches Some(d) ==> ends_at_label(d, domain_base(normal_form(raw@))),
        forall|base: Seq<char>, wildcard: bool, port: Option<u16>|
            #![trigger with_star(base, wildcard), is_port(port)]
            plain_host(lowered(base)) && ip_value(lowered(base)) is None && is_port(port) && raw@
                == host_and_port(with_star(base, wildcard), port) ==> r@ == asset_of(
                accepted(raw@, with_star(lowered(base), wildcard), port, None),
                list@,
            ),
{
    classify(normalize(raw), list)
}

/// An asset is garbage exactly when a reason is given, and a registrable domain is
/// given exactly for an apex, a subdomain or a wildcard.
pub proof fn law_kind_decides_fields(n: NormalizedView, registrable: Option<Seq<char>>)
    ensures
        classified(n, registrable).kind is Garbage <==> classified(n, registrable).reason is Some,
        classified(n, registrable).registrable is Some <==> {
            ||| classified(n, registrable).kind is Apex
            ||| classified(n, registrable).kind is Subdomain
            ||| classified(n, registrable).kind is Wildcard
        },
        classified(n, registrable).raw == n.raw,
{
}

/// The canonical form of an apex, a subdomain or a wildcard is its host in lowercase
/// letters, digits, hyphens and dots, behind `*.` for a wildcard, with the port if
/// there is one.
pub proof fn law_domain_assets_are_ascii_lowercase(
    n: NormalizedView,
    registrable: Option<Seq<char>>,
)
    requires
        classified(n, registrable).registrable is Some,
    ensures
        classified(n, registrable).canonical == host_and_port(
            (if classified(n, registrable).kind is Wildcard {
                "*."@
            } else {
                Seq::empty()
            }) + domain_base(n),
            n.port,
        ),
        forall|i: int|
            0 <= i < domain_base(n).len() ==> CharClass::LabelInside.has(
                #[trigger] domain_base(n)[i],
            ) || domain_base(n)[i] == '.',
{
    let host = trimmed(n.host, CharClass::Whitespace);
    lemma_well_formed_chars(host);
    reveal_strlit("*.");
    if "*."@.is_prefix_of(host) {
        assert("*."@ + host.skip(2) =~= host);
    } else {
        assert(Seq::<char>::empty() + host =~= host);
    }
}

/// The canonical form of an address is classified as itself, whatever input it came from.
pub proof fn law_addresses_are_canonical(
    n: NormalizedView,
    registrable: Option<Seq<char>>,
    rules: Map<Seq<char>, bool>,
)
    requires
        classified(n, registrable).kind is Ip,
        is_port(n.port),
    ensures
        ({
            let a = classified(n, registrable);
            asset_of_input(a.canonical, rules) == (AssetView {
                raw: a.canonical,
                scheme: None,
                ..a
            })
        }),
{
    let host = trimmed(n.host, CharClass::Whitespace);
    let ip = ip_value(host)->0;
    let x = ip.text();
    law_addresses_are_normal(ip, n.port);
    law_addresses_are_read_back(ip);
    lemma_address_text(ip);
    assert(CharClass::HexDigit.has(x[0]) || x[0] == ':' || x[0] == '.');
    assert(CharClass::HexDigit.has(x[x.len() - 1]) || x[x.len() - 1] == ':');
    lemma_unchanged_by_trim(x, CharClass::Whitespace);
}

/// The canonical form of an apex, a subdomain or a wildcard is classified as itself,
/// whatever input it came from. A wildcard over an address is left out.
pub proof fn law_names_are_canonical(n: NormalizedView, rules: Map<Seq<char>, bool>)
    requires
        asset_of(n, rules).registrable is Some,
        asset_of(n, rules).kind is Wildcard ==> ip_value(domain_base(n)) is None,
        is_port(n.port),
    ensures
        ({
            let a = asset_of(n, rules);
            asset_of_input(a.canonical, rules) == (AssetView {
                raw: a.canonical,
                scheme: None,
                ..a
            })
        }),
{
    let host = trimmed(n.host, CharClass::Whitespace);
    let base = domain_base(n);
    let wildcard = "*."@.is_prefix_of(host);
    reveal_strlit("*.");
    let labels = pieces(base, CharClass::Is('.'));
    assert forall|i: int| 0 <= i < labels.len() implies plain_label(#[trigger] labels[i]) by {
        assert(valid_label(labels[i]));
    }
    lemma_plain_chars(base);
    lemma_lowered(base);
    if wildcard {
        assert("*."@ + host.skip(2) =~= host);
        assert(host[0] == "*."@[0]) by {
            assert(host.subrange(0, 2)[0] == host[0]);
        }
        assert(host.last() == base.last());
    }
    lemma_unchanged_by_trim(host, CharClass::Whitespace);
    assert(host == with_star(base, wildcard));
    law_names_are_lowered(base, wildcard, n.port);
}

/// The canonical form of an asset is canonical: whatever raw input an asset came from, its
/// canonical form is classified as the same asset. Garbage, and a wildcard over an address,
/// is left out.
pub proof fn law_classification_is_idempotent(raw: Seq<char>, rules: Map<Seq<char>, bool>)
    requires
        !(asset_of_input(raw, rules).kind is Garbage),
        asset_of_input(raw, rules).kind is Wildcard ==> ip_value(domain_base(normal_form(raw)))
            is None,
    ensures
        ({
            let a = asset_of_input(raw, rules);
            asset_of_input(a.canonical, rules) == (AssetView {
                raw: a.canonical,
                scheme: None,
                ..a
            })
        }),
{
    let n = normal_form(raw);
    let registrable = registrable_form(registrable_part(rules, domain_base(n)));
    lemma_normal_port(raw);
    if asset_of(n, rules).kind is Ip {
        law_addresses_are_canonical(n, registrable, rules);
    } else {
        law_kind_decides_fields(n, registrable);
        law_names_are_canonical(n, rules);
    }
}

/// Whether a text is a label of a host name: one to 63 small letters, digits and hyphens,
/// without a hyphen at either end.
pub open spec fn host_label(t: Seq<char>) -> bool {
    &&& 1 <= t.len() <= 63
    &&& t[0] != '-'
    &&& t.last() != '-'
    &&& forall|i: int|
        0 <= i < t.len() ==> 'a' <= #[trigger] t[i] <= 'z' || '0' <= t[i] <= '9' || t[i] == '-'
}

/// Whether a text is a host name, behind `*.` or not: at least two labels with a dot between
/// each two, at most 253 bytes in all.
pub open spec fn host_name(h: Seq<char>) -> bool {
    let labels = pieces(wildcard_base(h), CharClass::Is('.'));
    &&& h.len() > 0
    &&& encode_utf8(h).len() <= 253
    &&& labels.len() >= 2
    &&& forall|i: int| 0 <= i < labels.len() ==> host_label(#[trigger] labels[i])
}

proof fn lemma_host_names_are_well_formed(h: Seq<char>)
    ensures
        malformed(h) <==> !host_name(h),
{
    reveal_strlit("*.");
    reveal_strlit("..");
    let base = wildcard_base(h);
    let star = "*."@.is_prefix_of(h);
    let dot = CharClass::Is('.');
    let labels = pieces(base, dot);
    assert forall|t: Seq<char>| #[trigger] valid_label(t) <==> host_label(t) by {
        if host_label(t) {
            assert forall|i: int| 0 <= i < t.len() implies CharClass::LabelInside.has(
                #[trigger] t[i],
            ) by {}
            assert(t[t.len() - 1] == t.last());
        }
        if valid_label(t) {
            assert forall|i: int| 0 <= i < t.len() implies 'a' <= #[trigger] t[i] <= 'z' || '0'
                <= t[i] <= '9' || t[i] == '-' by {
                assert(CharClass::LabelInside.has(t[i]));
            }
        }
    }
    if host_name(h) {
        assert forall|i: int| 0 <= i < labels.len() implies valid_label(#[trigger] labels[i]) by {
            assert(host_label(labels[i]));
        }
        assert forall|i: int| 0 <= i < labels.len() implies (#[trigger] labels[i]).len() > 0
            && has_only(labels[i], CharClass::LabelInside) by {
            assert(valid_label(labels[i]));
        }
        lemma_no_empty_piece(base, dot, 0);
        lemma_covered_by_pieces(base, dot, CharClass::LabelInside, 0);
        assert(base.len() > 0) by {
            if base.len() == 0 {
                crate::text::lemma_one_piece(base, dot);
            }
        }
        assert forall|i: int| 0 <= i < h.len() implies ({
            let c = #[trigger] h[i];
            &&& c != '@'
            &&& !CharClass::Whitespace.has(c)
            &&& c == '*' ==> star
            &&& c == '.' ==> 0 < i < h.len() - 1 && h[i + 1] != '.'
        }) by {
            if star {
                if i < 2 {
                    assert(h.subrange(0, 2)[i] == h[i]);
                    assert(h[i] == "*."@[i]);
                    assert(h[2] == base[0]);
                    assert(dot.has(base[0]) ==> false);
                } else {
                    assert(h[i] == base[i - 2]);
                    if i + 1 < h.len() {
                        assert(h[i + 1] == base[i - 1]);
                    }
                    assert(dot.has(base[i - 2]) || CharClass::LabelInside.has(base[i - 2]));
                }
            } else {
                assert(h[i] == base[i]);
                assert(dot.has(base[i]) || CharClass::LabelInside.has(base[i]));
            }
        }
        assert(!has_substring(h, ".."@)) by {
            if has_substring(h, ".."@) {
                let i = choose|i: int| occurs_at(h, ".."@, i);
                assert(h.subrange(i, i + 2)[0] == h[i] && h.subrange(i, i + 2)[1] == h[i + 1]);
                assert(".."@[0] == '.' && ".."@[1] == '.');
            }
        }
        assert(h[0] != '.');
        assert(h[h.len() - 1] != '.');
    }
    if !malformed(h) {
        assert forall|i: int| 0 <= i < labels.len() implies host_label(#[trigger] labels[i]) by {
            assert(valid_label(labels[i]));
        }
    }
}

/// What a valid input is. An address is one, with the canonical form of the address. A host
/// name with a registrable domain is a wildcard behind `*.`, an apex if it is its registrable
/// domain, and a subdomain otherwise. All keep port and scheme, and everything else is
/// garbage that says why.
pub proof fn law_what_a_valid_input_is(n: NormalizedView, registrable: Option<Seq<char>>)
    requires
        n.valid,
    ensures
        ({
            let a = classified(n, registrable);
            let h = trimmed(n.host, CharClass::Whitespace);
            let star = "*."@.is_prefix_of(h);
            &&& a.kind is Ip <==> ip_value(h) is Some
            &&& a.kind is Ip ==> a.canonical == host_and_port(ip_value(h)->0.text(), n.port)
            &&& ip_value(h) is None ==> (a.kind is Garbage <==> !host_name(h) || registrable
                is None)
            &&& a.kind is Wildcard || a.kind is Apex || a.kind is Subdomain ==> {
                &&& a.kind is Wildcard <==> star
                &&& a.kind is Apex <==> !star && registrable == Some(h)
                &&& a.kind is Subdomain <==> !star && registrable != Some(h)
                &&& a.registrable == registrable
                &&& a.canonical == host_and_port(h, n.port)
            }
            &&& !(a.kind is Garbage) ==> a.port == n.port && a.scheme == n.scheme && a.reason
                is None
            &&& a.kind is Garbage ==> a.port is None && a.registrable is None && a.reason is Some
            &&& a.raw == n.raw
        }),
{
    let h = trimmed(n.host, CharClass::Whitespace);
    lemma_host_names_are_well_formed(h);
    if !malformed(h) {
        lemma_well_formed_chars(h);
        let base = wildcard_base(h);
        let labels = pieces(base, CharClass::Is('.'));
        assert(valid_label(labels[0]));
        crate::text::lemma_outer_pieces(base, CharClass::Is('.'), 0);
        assert(!has_any(base, CharClass::Is('*'))) by {
            assert forall|i: int| 0 <= i < base.len() implies !CharClass::Is('*').has(
                #[trigger] base[i],
            ) by {
                assert(CharClass::LabelInside.has(base[i]) || base[i] == '.');
            }
        }
        assert(base.len() > 0) by {
            if base.len() == 0 {
                crate::text::lemma_one_piece(base, CharClass::Is('.'));
            }
        }
        assert(base[0] == labels[0][0]);
    }
}

/// An invalid input is garbage for the reason that was found.
pub proof fn law_invalid_inputs_are_garbage(n: NormalizedView, registrable: Option<Seq<char>>)
    requires
        !n.valid,
    ensures
        classified(n, registrable).kind is Garbage,
        n.reason is Some ==> classified(n, registrable).reason == n.reason,
        classified(n, registrable).raw == n.raw,
{
}

/// A registrable domain is a part of the name with a dot in it, in lowercase.
pub proof fn law_registrable_domains_have_a_dot(part: Option<Seq<char>>)
    ensures
        registrable_form(part) is Some <==> (part matches Some(d) && d.contains('.')),
        registrable_form(part) is Some ==> registrable_form(part) == Some(lowered(part->0)),
{
    if let Some(d) = part {
        if d.contains('.') {
            let i = choose|i: int| 0 <= i < d.len() && d[i] == '.';
            assert(CharClass::Is('.').has(d[i]));
        }
        if has_any(d, CharClass::Is('.')) {
            let i = choose|i: int| 0 <= i < d.len() && CharClass::Is('.').has(#[trigger] d[i]);
            assert(d.contains(d[i]));
        }
    }
}

} // verus!

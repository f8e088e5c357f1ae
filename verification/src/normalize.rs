//! Syntax-level normalization: from a raw input to a host with optional port and
//! scheme.

use vstd::prelude::*;
use vstd::slice::slice_subrange;
use vstd::utf8::is_ascii_chars;

use crate::ip::{ip_value, lemma_not_an_address, read_ip, v4_text, v6_text, IpAddr};
use crate::model::{fresh, Asset, AssetKind, AssetView};
use crate::numbers::{
    decimal, decimal_of, lemma_decimal, lemma_port_read_back, port_number, read_port,
};
use crate::text::{
    ascii_lower, char_texts, chars_of, contains_any, contains_only, copy, find, find_text,
    first_index, first_occurrence, has_any, has_only, in_lowercase, is_lower, is_text, join, joined,
    last_index, lemma_covered_by_pieces, lemma_index_is, lemma_last_index_is, lemma_lowered,
    lemma_not_found, lemma_one_piece, lemma_outer_pieces, lemma_pieces_joined, lemma_pieces_snoc,
    lemma_unchanged_by_trim, lowered, occurs_at, opt_literal, opt_text, pieces, rfind, same_str,
    split, starts_with, string_of, texts, to_lower, to_unicode_lowercase, trim, trim_end, trimmed,
    without_leading, without_trailing, CharClass,
};

verus! {

/// A normalized input. An invalid one carries the reason.
#[derive(Debug, Clone)]
pub struct Normalized {
    pub raw: String,
    pub host: String,
    pub port: Option<u16>,
    pub scheme: Option<String>,
    pub valid: bool,
    pub reason: Option<&'static str>,
}

/// What a normalized input says.
pub struct NormalizedView {
    pub raw: Seq<char>,
    pub host: Seq<char>,
    pub port: Option<u16>,
    pub scheme: Option<Seq<char>>,
    pub valid: bool,
    pub reason: Option<Seq<char>>,
}

impl View for Normalized {
    type V = NormalizedView;

    open spec fn view(&self) -> NormalizedView {
        NormalizedView {
            raw: self.raw@,
            host: self.host@,
            port: self.port,
            scheme: opt_text(self.scheme),
            valid: self.valid,
            reason: opt_literal(self.reason),
        }
    }
}

/// The record of an input that cannot be normalized.
pub open spec fn rejected(raw: Seq<char>, host: Seq<char>, reason: Seq<char>) -> NormalizedView {
    NormalizedView { raw, host, port: None, scheme: None, valid: false, reason: Some(reason) }
}

impl Normalized {
    pub fn invalid(raw: String, host: String, reason: &'static str) -> (r: Self)
        ensures
            r@ == rejected(raw@, host@, reason@),
    {
        Normalized { raw, host, port: None, scheme: None, valid: false, reason: Some(reason) }
    }
}

// ---------------------------------------------------------------------------
// Splitting host, port and scheme

/// The parts of an input, with the reason when it is malformed.
pub struct Parsed {
    pub host: Vec<char>,
    pub port: Option<u16>,
    pub scheme: Option<String>,
    pub reason: Option<&'static str>,
}

/// What the parts of an input say.
pub struct ParsedView {
    pub host: Seq<char>,
    pub port: Option<u16>,
    pub scheme: Option<Seq<char>>,
    pub reason: Option<Seq<char>>,
}

impl View for Parsed {
    type V = ParsedView;

    open spec fn view(&self) -> ParsedView {
        ParsedView {
            host: self.host@,
            port: self.port,
            scheme: opt_text(self.scheme),
            reason: opt_literal(self.reason),
        }
    }
}

/// The text of optional parts.
pub open spec fn opt_parsed(o: Option<Parsed>) -> Option<ParsedView> {
    match o {
        Some(p) => Some(p@),
        None => None,
    }
}

/// Whether a text begins with a URL scheme and `://`.
pub open spec fn begins_with_scheme(raw: Seq<char>) -> bool {
    let i = first_index(raw, CharClass::Is(':'));
    &&& raw.len() > 0
    &&& CharClass::Letter.has(raw[0])
    &&& occurs_at(raw, "://"@, i)
    &&& has_only(raw.take(i), CharClass::SchemeChar)
}

/// A host whose port, if it is given at all, is the text `port`.
pub open spec fn with_port(
    host: Seq<char>,
    port: Seq<char>,
    scheme: Option<Seq<char>>,
) -> ParsedView {
    ParsedView {
        host,
        port: port_number(port),
        scheme,
        reason: if port_number(port) is Some {
            None
        } else {
            Some("invalid-port"@)
        },
    }
}

/// A host without a port.
pub open spec fn without_port(
    host: Seq<char>,
    scheme: Option<Seq<char>>,
    reason: Option<Seq<char>>,
) -> ParsedView {
    ParsedView { host, port: None, scheme, reason }
}

/// The parts of a text that begins with `[`: a bracketed host and an optional port.
/// Without a closing bracket there are none.
pub open spec fn bracketed_parts(
    s: Seq<char>,
    scheme: Option<Seq<char>>,
) -> Option<ParsedView> {
    let end = first_index(s, CharClass::Is(']'));
    if end >= s.len() {
        None
    } else {
        let host = s.subrange(1, end);
        let rest = s.skip(end + 1);
        if rest.len() == 0 {
            Some(without_port(host, scheme, None))
        } else if rest[0] == ':' {
            Some(with_port(host, rest.skip(1), scheme))
        } else {
            Some(without_port(host, scheme, Some("invalid-ipv6-port"@)))
        }
    }
}

/// `s` up to its first `/`, `?` or `#`.
pub open spec fn before_path(s: Seq<char>) -> Seq<char> {
    s.take(first_index(s, CharClass::AuthorityEnd))
}

/// `s` behind its last `@`.
pub open spec fn without_userinfo(s: Seq<char>) -> Seq<char> {
    s.skip(last_index(s, CharClass::Is('@')) + 1)
}

/// The parts of a URL; one that begins with `//` is an `http` URL. An IPv6 address without
/// brackets is a host without a port.
pub open spec fn url_parts(raw: Seq<char>) -> Option<ParsedView> {
    let url = if "//"@.is_prefix_of(raw) {
        "http:"@ + raw
    } else {
        raw
    };
    match first_occurrence(url, "://"@) {
        None => None,
        Some(i) => {
            let scheme = Some(lowered(url.take(i)));
            let authority = without_userinfo(before_path(url.skip(i + 3)));
            let colon = last_index(authority, CharClass::Is(':'));
            if authority.len() == 0 {
                Some(without_port(Seq::empty(), scheme, Some("missing-host"@)))
            } else if authority[0] == '[' {
                bracketed_parts(authority, scheme)
            } else if colon < 0 || ip_value(authority) is Some {
                Some(without_port(authority, scheme, None))
            } else if colon + 1 == authority.len() {
                Some(without_port(authority.take(colon), scheme, None))
            } else {
                Some(with_port(authority.take(colon), authority.skip(colon + 1), scheme))
            }
        },
    }
}

/// The parts of an input that is no URL.
pub open spec fn bare_parts(raw: Seq<char>) -> Option<ParsedView> {
    let head = trimmed(before_path(raw), CharClass::Whitespace);
    let colon = first_index(head, CharClass::Is(':'));
    if has_any(raw, CharClass::Is('@')) {
        Some(without_port(raw, None, Some("contains-at"@)))
    } else if head.len() == 0 {
        Some(without_port(Seq::empty(), None, Some("missing-host"@)))
    } else if has_any(head, CharClass::Whitespace) {
        Some(without_port(head, None, Some("contains-space"@)))
    } else if head[0] == '[' {
        bracketed_parts(head, None)
    } else if ip_value(head) is Some || colon == head.len() {
        Some(without_port(head, None, None))
    } else if last_index(head, CharClass::Is(':')) == colon {
        Some(with_port(head.take(colon), head.skip(colon + 1), None))
    } else {
        Some(without_port(head, None, Some("invalid-ipv6"@)))
    }
}

/// The parts of an input.
pub open spec fn input_parts(raw: Seq<char>) -> Option<ParsedView> {
    if begins_with_scheme(raw) || "//"@.is_prefix_of(raw) {
        url_parts(raw)
    } else {
        bare_parts(raw)
    }
}

fn has_scheme(raw: &[char]) -> (r: bool)
    ensures
        r == begins_with_scheme(raw@),
{
    let n: usize = raw.len();
    proof {
        reveal_strlit("://");
    }
    if n == 0 || !CharClass::Letter.test(raw[0]) {
        return false;
    }
    match find(raw, CharClass::Is(':')) {
        None => false,
        Some(i) => {
            if n - i < 3 {
                return false;
            }
            let head = slice_subrange(raw, 0, i);
            assert(head@ =~= raw@.take(i as int));
            let mark = slice_subrange(raw, i, i + 3);
            is_text(mark, "://") && contains_only(head, CharClass::SchemeChar)
        },
    }
}

fn parse_port(host: &[char], port: &[char], scheme: Option<String>) -> (r: Parsed)
    ensures
        r@ == with_port(host@, port@, opt_text(scheme)),
{
    let number = read_port(port);
    let reason = if number.is_some() {
        None
    } else {
        Some("invalid-port")
    };
    Parsed { host: copy(host), port: number, scheme, reason }
}

fn parse_bracketed(s: &[char], scheme: Option<String>) -> (r: Option<Parsed>)
    requires
        s@.len() > 0,
        s@[0] == '[',
    ensures
        opt_parsed(r) == bracketed_parts(s@, opt_text(scheme)),
{
    let n: usize = s.len();
    match find(s, CharClass::Is(']')) {
        None => None,
        Some(end) => {
            proof {
                crate::text::lemma_index_from(s@, CharClass::Is(']'), 0);
            }
            let host = slice_subrange(s, 1, end);
            let rest = slice_subrange(s, end + 1, n);
            assert(rest@ =~= s@.skip(end + 1));
            if rest.len() == 0 {
                Some(Parsed { host: copy(host), port: None, scheme, reason: None })
            } else if rest[0] == ':' {
                let port = slice_subrange(rest, 1, rest.len());
                assert(port@ =~= rest@.skip(1));
                Some(parse_port(host, port, scheme))
            } else {
                Some(
                    Parsed {
                        host: copy(host),
                        port: None,
                        scheme,
                        reason: Some("invalid-ipv6-port"),
                    },
                )
            }
        },
    }
}

fn cut_path(s: &[char]) -> (r: &[char])
    ensures
        r@ == before_path(s@),
{
    match find(s, CharClass::AuthorityEnd) {
        Some(i) => {
            let r = slice_subrange(s, 0, i);
            assert(r@ =~= s@.take(i as int));
            r
        },
        None => {
            assert(s@.take(s@.len() as int) =~= s@);
            s
        },
    }
}

fn cut_userinfo(s: &[char]) -> (r: &[char])
    ensures
        r@ == without_userinfo(s@),
{
    let n: usize = s.len();
    match rfind(s, CharClass::Is('@')) {
        Some(i) => {
            let r = slice_subrange(s, i + 1, n);
            assert(r@ =~= s@.skip(i + 1));
            r
        },
        None => {
            assert(s@.skip(0) =~= s@);
            s
        },
    }
}

fn parse_url(raw: &[char]) -> (r: Option<Parsed>)
    ensures
        opt_parsed(r) == url_parts(raw@),
{
    let url = if starts_with(raw, "//") {
        let mut v = chars_of("http:");
        let mut i: usize = 0;
        while i < raw.len()
            invariant
                i <= raw.len(),
                v@ == "http:"@ + raw@.take(i as int),
            decreases raw.len() - i,
        {
            v.push(raw[i]);
            i += 1;
            assert(v@ =~= "http:"@ + raw@.take(i as int));
        }
        assert(raw@.take(i as int) =~= raw@);
        v
    } else {
        copy(raw)
    };
    let n: usize = url.len();
    proof {
        reveal_strlit("://");
    }
    match find_text(url.as_slice(), "://") {
        None => None,
        Some(i) => {
            let scheme_text = slice_subrange(url.as_slice(), 0, i);
            assert(scheme_text@ =~= url@.take(i as int));
            let scheme = Some(string_of(to_lower(scheme_text).as_slice()));
            let after = slice_subrange(url.as_slice(), i + 3, n);
            assert(after@ =~= url@.skip(i + 3));
            let authority = cut_userinfo(cut_path(after));
            let m: usize = authority.len();
            if m == 0 {
                let host: Vec<char> = Vec::new();
                assert(host@ =~= Seq::<char>::empty());
                return Some(Parsed { host, port: None, scheme, reason: Some("missing-host") });
            }
            if authority[0] == '[' {
                return parse_bracketed(authority, scheme);
            }
            if read_ip(authority).is_some() {
                return Some(Parsed { host: copy(authority), port: None, scheme, reason: None });
            }
            match rfind(authority, CharClass::Is(':')) {
                None => Some(
                    Parsed { host: copy(authority), port: None, scheme, reason: None },
                ),
                Some(colon) => {
                    let host = slice_subrange(authority, 0, colon);
                    let port = slice_subrange(authority, colon + 1, m);
                    assert(host@ =~= authority@.take(colon as int));
                    assert(port@ =~= authority@.skip(colon + 1));
                    if port.len() == 0 {
                        Some(Parsed { host: copy(host), port: None, scheme, reason: None })
                    } else {
                        Some(parse_port(host, port, scheme))
                    }
                },
            }
        },
    }
}

fn parse_bare(raw: &[char]) -> (r: Option<Parsed>)
    ensures
        opt_parsed(r) == bare_parts(raw@),
{
    if contains_any(raw, CharClass::Is('@')) {
        return Some(
            Parsed { host: copy(raw), port: None, scheme: None, reason: Some("contains-at") },
        );
    }
    let head = trim(cut_path(raw), CharClass::Whitespace);
    let n: usize = head.len();
    if n == 0 {
        let host: Vec<char> = Vec::new();
        assert(host@ =~= Seq::<char>::empty());
        return Some(Parsed { host, port: None, scheme: None, reason: Some("missing-host") });
    }
    if contains_any(head, CharClass::Whitespace) {
        return Some(
            Parsed { host: copy(head), port: None, scheme: None, reason: Some("contains-space") },
        );
    }
    if head[0] == '[' {
        return parse_bracketed(head, None);
    }
    if read_ip(head).is_some() {
        return Some(Parsed { host: copy(head), port: None, scheme: None, reason: None });
    }
    match find(head, CharClass::Is(':')) {
        None => Some(Parsed { host: copy(head), port: None, scheme: None, reason: None }),
        Some(i) => {
            proof {
                crate::text::lemma_index_before(head@, CharClass::Is(':'), head@.len() as int);
                crate::text::lemma_index_from(head@, CharClass::Is(':'), 0);
            }
            match rfind(head, CharClass::Is(':')) {
                Some(j) => {
                    if i == j {
                        let host = slice_subrange(head, 0, i);
                        let port = slice_subrange(head, i + 1, n);
                        assert(host@ =~= head@.take(i as int));
                        assert(port@ =~= head@.skip(i + 1));
                        Some(parse_port(host, port, None))
                    } else {
                        Some(
                            Parsed {
                                host: copy(head),
                                port: None,
                                scheme: None,
                                reason: Some("invalid-ipv6"),
                            },
                        )
                    }
                },
                None => None,
            }
        },
    }
}

/// Splits an input into host, port and scheme.
pub fn parse(raw: &[char]) -> (r: Option<Parsed>)
    ensures
        opt_parsed(r) == input_parts(raw@),
{
    if has_scheme(raw) || starts_with(raw, "//") {
        parse_url(raw)
    } else {
        parse_bare(raw)
    }
}

// ---------------------------------------------------------------------------
// Hosts

/// The text of an IP address in its canonical form.
pub open spec fn ip_form(host: Seq<char>) -> Option<Seq<char>> {
    match ip_value(host) {
        Some(ip) => Some(ip.text()),
        None => None,
    }
}

fn normalize_ip(host: &[char]) -> (r: Option<String>)
    ensures
        opt_text(r) == ip_form(host@),
{
    match read_ip(host) {
        Some(ip) => Some(ip.to_text()),
        None => None,
    }
}

/// What `idna::domain_to_ascii_cow` returns for a name under the URL deny list.
pub uninterp spec fn domain_to_ascii(name: Seq<char>) -> Option<Seq<char>>;

/// Whether a text is a label in its final form: lowercase letters, digits and hyphens,
/// with no hyphen at either end.
pub open spec fn plain_label(t: Seq<char>) -> bool {
    &&& t.len() > 0
    &&& CharClass::LabelEdge.has(t[0])
    &&& CharClass::LabelEdge.has(t.last())
    &&& has_only(t, CharClass::LabelInside)
}

/// Whether every label of a name is in its final form.
pub open spec fn plain_host(name: Seq<char>) -> bool {
    let labels = pieces(name, CharClass::Is('.'));
    forall|i: int| 0 <= i < labels.len() ==> plain_label(#[trigger] labels[i])
}

/// Calls `idna::domain_to_ascii_cow` with `AsciiDenyList::URL`. Success and result
/// are fixed by the name alone, and an ASCII name that is accepted comes back in lowercase,
/// otherwise unchanged. Which names are accepted, and the mapping of other names, is not
/// spelled out here.
#[verifier::external_body]
fn idna_domain(name: &str) -> (r: Option<String>)
    ensures
        opt_text(r) == domain_to_ascii(name@),
        is_ascii_chars(name@) ==> (r matches Some(d) ==> d@ == lowered(name@)),
{
    match idna::domain_to_ascii_cow(name.as_bytes(), idna::AsciiDenyList::URL) {
        Ok(cow) => Some(cow.into_owned()),
        Err(_) => None,
    }
}

/// The ASCII form that the conversion of a name returns, if it is accepted.
pub open spec fn converted(name: Seq<char>) -> Option<Seq<char>> {
    match domain_to_ascii(name) {
        Some(d) => Some(
            if is_ascii_chars(name) {
                lowered(name)
            } else {
                d
            },
        ),
        None => None,
    }
}

/// A name before it is turned into ASCII: trimmed, without trailing dots, lowercase.
pub open spec fn folded(host: Seq<char>) -> Seq<char> {
    in_lowercase(without_trailing(trimmed(host, CharClass::Whitespace), CharClass::Is('.')))
}

/// The ASCII form of one label: an ASCII label is its own form.
pub open spec fn label_form(label: Seq<char>) -> Option<Seq<char>> {
    if label.len() == 0 {
        None
    } else if is_ascii_chars(label) {
        Some(label)
    } else {
        domain_to_ascii(label)
    }
}

/// The ASCII form of a name, given what the conversion of the whole name and of
/// each of its labels returned: the former, or else the latter joined.
pub open spec fn chosen_form(
    whole: Option<Seq<char>>,
    labels: Seq<Option<Seq<char>>>,
) -> Option<Seq<char>> {
    match whole {
        Some(a) => Some(lowered(a)),
        None => if forall|i: int| 0 <= i < labels.len() ==> (#[trigger] labels[i]) is Some {
            Some(lowered(joined(labels.map_values(|l: Option<Seq<char>>| l->0), "."@)))
        } else {
            None
        },
    }
}

/// The canonical form of a domain name.
pub open spec fn domain_form(host: Seq<char>) -> Option<Seq<char>> {
    let name = folded(host);
    if name.len() == 0 {
        None
    } else {
        chosen_form(
            converted(name),
            pieces(name, CharClass::Is('.')).map_values(|l: Seq<char>| label_form(l)),
        )
    }
}

/// The texts of optional strings.
pub open spec fn opt_texts(v: Seq<Option<String>>) -> Seq<Option<Seq<char>>> {
    v.map_values(|o: Option<String>| opt_text(o))
}

/// Picks the ASCII form of a name from what the conversion of the whole name and of
/// each of its labels returned.
pub fn choose_form(whole: Option<String>, labels: Vec<Option<String>>) -> (r: Option<String>)
    ensures
        opt_text(r) == chosen_form(opt_text(whole), opt_texts(labels@)),
{
    if let Some(a) = whole {
        return Some(lower_string(a.as_str()));
    }
    let ghost forms = opt_texts(labels@);
    let mut parts: Vec<String> = Vec::new();
    let mut i: usize = 0;
    while i < labels.len()
        invariant
            i <= labels@.len(),
            whole is None,
            forms == opt_texts(labels@),
            forall|j: int| 0 <= j < i ==> (#[trigger] forms[j]) is Some,
            texts(parts@) == forms.take(i as int).map_values(|l: Option<Seq<char>>| l->0),
        decreases labels.len() - i,
    {
        let ghost before = texts(parts@);
        match &labels[i] {
            Some(label) => {
                parts.push(label.clone());
                assert(texts(parts@) =~= before.push(label@));
            },
            None => {
                assert(forms[i as int] is None);
                return None;
            },
        }
        i += 1;
        assert(texts(parts@) =~= forms.take(i as int).map_values(|l: Option<Seq<char>>| l->0));
    }
    assert(forms.take(i as int) =~= forms);
    Some(lower_string(join(&parts, ".").as_str()))
}

/// Lowercases the ASCII letters of a string.
pub fn lower_string(s: &str) -> (r: String)
    ensures
        r@ == lowered(s@),
{
    string_of(to_lower(chars_of(s).as_slice()).as_slice())
}

fn fold(host: &[char]) -> (r: String)
    ensures
        r@ == folded(host@),
{
    let cut = trim_end(trim(host, CharClass::Whitespace), CharClass::Is('.'));
    to_unicode_lowercase(string_of(cut).as_str())
}

fn ascii_label(label: &[char]) -> (r: Option<String>)
    ensures
        opt_text(r) == label_form(label@),
{
    if label.len() == 0 {
        return None;
    }
    let s = string_of(label);
    if s.as_str().is_ascii() {
        return Some(s);
    }
    idna_domain(s.as_str())
}

fn normalize_domain(host: &[char]) -> (r: Option<String>)
    ensures
        opt_text(r) == domain_form(host@),
{
    let name = fold(host);
    if name.as_str().is_empty() {
        return None;
    }
    let whole = idna_domain(name.as_str());
    let mut labels: Vec<Option<String>> = Vec::new();
    if whole.is_none() {
        let parts = split(chars_of(name.as_str()).as_slice(), CharClass::Is('.'));
        let ghost all = pieces(name@, CharClass::Is('.'));
        let mut i: usize = 0;
        while i < parts.len()
            invariant
                i <= parts@.len(),
                char_texts(parts@) == all,
                opt_texts(labels@) == all.take(i as int).map_values(
                    |l: Seq<char>| label_form(l),
                ),
            decreases parts.len() - i,
        {
            let ghost before = opt_texts(labels@);
            let form = ascii_label(parts[i].as_slice());
            labels.push(form);
            assert(parts@[i as int]@ == all[i as int]);
            i += 1;
            assert(opt_texts(labels@) =~= before.push(label_form(all[i - 1])));
            assert(opt_texts(labels@) =~= all.take(i as int).map_values(
                |l: Seq<char>| label_form(l),
            ));
        }
        assert(all.take(i as int) =~= all);
    }
    choose_form(whole, labels)
}

// ---------------------------------------------------------------------------
// Normalization

/// Whether the port is the one that the scheme implies.
pub open spec fn default_port(scheme: Option<Seq<char>>, port: Option<u16>) -> bool {
    ||| scheme == Some("http"@) && port == Some(80u16)
    ||| scheme == Some("https"@) && port == Some(443u16)
}

fn is_default_port(scheme: &Option<String>, port: Option<u16>) -> (r: bool)
    ensures
        r == default_port(opt_text(*scheme), port),
{
    match (scheme, port) {
        (Some(s), Some(p)) => (p == 80 && same_str(s.as_str(), "http")) || (p == 443 && same_str(
            s.as_str(),
            "https",
        )),
        _ => false,
    }
}

/// An input as far as it can be normalized without converting a domain name.
pub enum Prepared {
    /// Nothing is left to do.
    Done(Normalized),
    /// The domain name `body`, behind `*.` or not, is still to be converted.
    Domain {
        raw: String,
        host: String,
        body: String,
        wildcard: bool,
        port: Option<u16>,
        scheme: Option<String>,
    },
}

/// What a prepared input says.
pub enum PreparedView {
    Done(NormalizedView),
    Domain {
        raw: Seq<char>,
        host: Seq<char>,
        body: Seq<char>,
        wildcard: bool,
        port: Option<u16>,
        scheme: Option<Seq<char>>,
    },
}

impl View for Prepared {
    type V = PreparedView;

    open spec fn view(&self) -> PreparedView {
        match *self {
            Prepared::Done(n) => PreparedView::Done(n@),
            Prepared::Domain { raw, host, body, wildcard, port, scheme } => PreparedView::Domain {
                raw: raw@,
                host: host@,
                body: body@,
                wildcard,
                port,
                scheme: opt_text(scheme),
            },
        }
    }
}

/// The port that is kept: none where the scheme implies it.
pub open spec fn kept_port(scheme: Option<Seq<char>>, port: Option<u16>) -> Option<u16> {
    if default_port(scheme, port) {
        None
    } else {
        port
    }
}

/// The record of a valid input.
pub open spec fn accepted(
    raw: Seq<char>,
    host: Seq<char>,
    port: Option<u16>,
    scheme: Option<Seq<char>>,
) -> NormalizedView {
    NormalizedView { raw, host, port: kept_port(scheme, port), scheme, valid: true, reason: None }
}

/// The text without what quotes or brackets it.
pub open spec fn unquoted(s: Seq<char>) -> Seq<char> {
    trimmed(trimmed(s, CharClass::Whitespace), CharClass::Surrounding)
}

/// The host without a leading `*.` and without trailing dots.
pub open spec fn host_body(host: Seq<char>) -> Seq<char> {
    without_trailing(
        if "*."@.is_prefix_of(host) {
            host.skip(2)
        } else {
            host
        },
        CharClass::Is('.'),
    )
}

/// An input as far as it can be normalized without converting a domain name.
pub open spec fn prepared(raw: Seq<char>) -> PreparedView {
    let text = unquoted(raw);
    if trimmed(raw, CharClass::Whitespace).len() == 0 {
        PreparedView::Done(rejected(raw, Seq::empty(), "empty"@))
    } else {
        match input_parts(text) {
            None => PreparedView::Done(rejected(raw, lowered(text), "unparseable"@)),
            Some(p) => {
                let host = unquoted(p.host);
                match p.reason {
                    Some(reason) => PreparedView::Done(rejected(raw, lowered(p.host), reason)),
                    None => if host.len() == 0 {
                        PreparedView::Done(rejected(raw, Seq::empty(), "missing-host"@))
                    } else {
                        match ip_form(host_body(host)) {
                            Some(ip) => PreparedView::Done(accepted(raw, ip, p.port, p.scheme)),
                            None => PreparedView::Domain {
                                raw,
                                host,
                                body: host_body(host),
                                wildcard: "*."@.is_prefix_of(host),
                                port: p.port,
                                scheme: p.scheme,
                            },
                        }
                    },
                }
            },
        }
    }
}

/// The normalized form of a prepared input, given the form of its domain name.
pub open spec fn completed(p: PreparedView, domain: Option<Seq<char>>) -> NormalizedView {
    match p {
        PreparedView::Done(n) => n,
        PreparedView::Domain { raw, host, body, wildcard, port, scheme } => match domain {
            None => rejected(raw, lowered(host), "invalid-idna"@),
            Some(d) => accepted(
                raw,
                if wildcard {
                    "*."@ + d
                } else {
                    d
                },
                port,
                scheme,
            ),
        },
    }
}

/// The normalized form of an input.
pub open spec fn normal_form(raw: Seq<char>) -> NormalizedView {
    let p = prepared(raw);
    completed(p, if p is Domain { domain_form(p->body) } else { None })
}

fn unquote(s: &[char]) -> (r: &[char])
    ensures
        r@ == unquoted(s@),
{
    trim(trim(s, CharClass::Whitespace), CharClass::Surrounding)
}

fn accept(raw: String, host: String, port: Option<u16>, scheme: Option<String>) -> (r: Normalized)
    ensures
        r@ == accepted(raw@, host@, port, opt_text(scheme)),
{
    let kept = if is_default_port(&scheme, port) {
        None
    } else {
        port
    };
    Normalized { raw, host, port: kept, scheme, valid: true, reason: None }
}

/// Normalizes an input as far as no domain name has to be converted.
pub fn prepare(raw_input: &str) -> (r: Prepared)
    ensures
        r@ == prepared(raw_input@),
{
    let raw = raw_input.to_string();
    let chars = chars_of(raw_input);
    if trim(chars.as_slice(), CharClass::Whitespace).len() == 0 {
        let host = String::new();
        assert(host@ =~= Seq::<char>::empty());
        return Prepared::Done(Normalized::invalid(raw, host, "empty"));
    }
    let text = unquote(chars.as_slice());
    let parts = match parse(text) {
        Some(p) => p,
        None => {
            let host = string_of(to_lower(text).as_slice());
            return Prepared::Done(Normalized::invalid(raw, host, "unparseable"));
        },
    };
    if let Some(reason) = parts.reason {
        let host = string_of(to_lower(parts.host.as_slice()).as_slice());
        return Prepared::Done(Normalized::invalid(raw, host, reason));
    }
    let host = unquote(parts.host.as_slice());
    let n: usize = host.len();
    if n == 0 {
        let empty = String::new();
        assert(empty@ =~= Seq::<char>::empty());
        return Prepared::Done(Normalized::invalid(raw, empty, "missing-host"));
    }
    let wildcard = starts_with(host, "*.");
    proof {
        reveal_strlit("*.");
    }
    let inner = if wildcard {
        let cut = slice_subrange(host, 2, n);
        assert(cut@ =~= host@.skip(2));
        cut
    } else {
        host
    };
    let body = trim_end(inner, CharClass::Is('.'));
    match normalize_ip(body) {
        Some(ip) => Prepared::Done(accept(raw, ip, parts.port, parts.scheme)),
        None => Prepared::Domain {
            raw,
            host: string_of(host),
            body: string_of(body),
            wildcard,
            port: parts.port,
            scheme: parts.scheme,
        },
    }
}

/// Completes a prepared input with the form of its domain name.
pub fn complete(p: Prepared, domain: Option<String>) -> (r: Normalized)
    ensures
        r@ == completed(p@, opt_text(domain)),
{
    match p {
        Prepared::Done(n) => n,
        Prepared::Domain { raw, host, body, wildcard, port, scheme } => match domain {
            None => Normalized::invalid(raw, lower_string(host.as_str()), "invalid-idna"),
            Some(d) => {
                let host = if wildcard {
                    crate::text::concat("*.", d.as_str())
                } else {
                    d
                };
                accept(raw, host, port, scheme)
            },
        },
    }
}

/// Normalizes a raw candidate. It never fails: an invalid input is marked so, with
/// the reason. A name that is in its final form but for capitals, and is no address, has
/// that name in lowercase as its normal form, with or without a port and a leading `*.`.
pub fn normalize(raw_input: &str) -> (r: Normalized)
    ensures
        r@ == normal_form(raw_input@),
        forall|base: Seq<char>, wildcard: bool, port: Option<u16>|
            #![trigger with_star(base, wildcard), is_port(port)]
            plain_host(lowered(base)) && ip_value(lowered(base)) is None && is_port(port)
                && raw_input@ == host_and_port(with_star(base, wildcard), port) ==> r@ == accepted(
                raw_input@,
                with_star(lowered(base), wildcard),
                port,
                None,
            ),
{
    let p = prepare(raw_input);
    let domain = match &p {
        Prepared::Domain { raw, host, body, wildcard, port, scheme } => normalize_domain(
            chars_of(body.as_str()).as_slice(),
        ),
        Prepared::Done(_) => None,
    };
    proof {
        assert forall|base: Seq<char>, wildcard: bool, port: Option<u16>|
            #![trigger with_star(base, wildcard), is_port(port)]
            plain_host(lowered(base)) && ip_value(lowered(base)) is None && is_port(port)
                && raw_input@ == host_and_port(
                with_star(base, wildcard),
                port,
            ) implies normal_form(raw_input@) == accepted(
            raw_input@,
            with_star(lowered(base), wildcard),
            port,
            None,
        ) by {
            law_names_are_lowered(base, wildcard, port);
        }
    }
    complete(p, domain)
}

// ---------------------------------------------------------------------------
// Normal forms

/// A host, behind `*.` if it is a wildcard.
pub open spec fn with_star(base: Seq<char>, wildcard: bool) -> Seq<char> {
    if wildcard {
        "*."@ + base
    } else {
        base
    }
}

/// Whether a port is absent or above zero.
pub open spec fn is_port(port: Option<u16>) -> bool {
    port != Some(0u16)
}

/// The port of a normalized input is absent or above zero.
pub proof fn lemma_normal_port(raw: Seq<char>)
    ensures
        is_port(normal_form(raw).port),
{
}

/// The characters of a host in its final form.
pub proof fn lemma_plain_chars(h: Seq<char>)
    requires
        plain_host(h),
    ensures
        h.len() > 0,
        CharClass::LabelEdge.has(h[0]),
        CharClass::LabelEdge.has(h.last()),
        forall|i: int|
            0 <= i < h.len() ==> CharClass::LabelInside.has(#[trigger] h[i]) || h[i] == '.',
        is_lower(h),
{
    let k = CharClass::Is('.');
    let labels = pieces(h, k);
    lemma_outer_pieces(h, k, 0);
    assert(plain_label(labels[0]));
    assert(plain_label(labels[labels.len() - 1]));
    let last = labels.last();
    assert(last == h.subrange(h.len() - last.len(), h.len() as int));
    assert(last.last() == h.last());
    assert forall|n: int| 0 <= n < labels.len() implies has_only(
        #[trigger] labels[n],
        CharClass::LabelInside,
    ) by {
        assert(plain_label(labels[n]));
    }
    lemma_covered_by_pieces(h, k, CharClass::LabelInside, 0);
    assert(h.len() > 0) by {
        if h.len() == 0 {
            lemma_one_piece(h, k);
        }
    }
}

/// Whether a character occurs in plain hosts and addresses, with their ports.
spec fn plain_char(c: char) -> bool {
    ||| CharClass::Letter.has(c)
    ||| CharClass::Digit.has(c)
    ||| c == '-'
    ||| c == ':'
    ||| c == '.'
    ||| c == '['
    ||| c == ']'
    ||| c == '*'
}

proof fn lemma_bare_input(t: Seq<char>)
    requires
        t.len() > 0,
        forall|i: int| 0 <= i < t.len() ==> plain_char(#[trigger] t[i]),
    ensures
        trimmed(t, CharClass::Whitespace) == t,
        unquoted(t) == t,
        trimmed(before_path(t), CharClass::Whitespace) == t,
        !has_any(t, CharClass::Is('@')),
        !has_any(t, CharClass::Whitespace),
        input_parts(t) == bare_parts(t),
{
    reveal_strlit("//");
    reveal_strlit("://");
    assert(plain_char(t[0]));
    assert(plain_char(t[t.len() - 1]));
    lemma_unchanged_by_trim(t, CharClass::Whitespace);
    lemma_unchanged_by_trim(t, CharClass::Surrounding);
    if begins_with_scheme(t) {
        let i = first_index(t, CharClass::Is(':'));
        let w = t.subrange(i, i + 3);
        assert(w[1] == t[i + 1]);
        assert("://"@[1] == '/');
        assert(plain_char(t[i + 1]));
    }
    if "//"@.is_prefix_of(t) {
        assert(t.subrange(0, 2)[0] == t[0]);
        assert("//"@[0] == '/');
    }
    assert forall|i: int| 0 <= i < t.len() implies !CharClass::AuthorityEnd.has(#[trigger] t[i]) by {
        assert(plain_char(t[i]));
    }
    lemma_index_is(t, CharClass::AuthorityEnd, 0, t.len() as int);
    assert(t.take(t.len() as int) =~= t);
    assert(!has_any(t, CharClass::Is('@'))) by {
        assert forall|i: int| 0 <= i < t.len() implies !CharClass::Is('@').has(#[trigger] t[i]) by {
            assert(plain_char(t[i]));
        }
    }
    assert(!has_any(t, CharClass::Whitespace)) by {
        assert forall|i: int| 0 <= i < t.len() implies !CharClass::Whitespace.has(
            #[trigger] t[i],
        ) by {
            assert(plain_char(t[i]));
        }
    }
}

proof fn lemma_no_address(host: Seq<char>, port: Seq<char>)
    requires
        host.len() > 0,
        !has_any(host, CharClass::Is(':')),
        has_only(port, CharClass::Digit),
    ensures
        ip_value(host + seq![':'] + port) is None,
{
    let t = host + seq![':'] + port;
    let n = host.len() as int;
    let colon = CharClass::Is(':');
    let pat = seq![':', ':'];
    assert forall|i: int| 0 <= i < n implies !colon.has(#[trigger] host[i]) by {}
    assert(!has_any(port, colon)) by {
        assert forall|i: int| 0 <= i < port.len() implies !colon.has(#[trigger] port[i]) by {
            assert(CharClass::Digit.has(port[i]));
        }
    }
    lemma_one_piece(host, colon);
    lemma_pieces_snoc(host, ':', port, colon, 0);
    assert forall|m: int| 0 <= m implies !#[trigger] occurs_at(t, pat, m) by {
        if occurs_at(t, pat, m) {
            let w = t.subrange(m, m + 2);
            assert(w[0] == t[m] && w[1] == t[m + 1]);
            if m < n {
                assert(t[m] == host[m]);
            } else {
                assert(t[m + 1] == port[m - n]);
                assert(CharClass::Digit.has(port[m - n]));
            }
        }
    }
    lemma_not_found(t, pat, 0);
    assert(t[n] == ':');
    lemma_not_an_address(t, n);
}

/// The characters of a host that is in its final form but for capitals.
proof fn lemma_capital_chars(base: Seq<char>)
    requires
        plain_host(lowered(base)),
    ensures
        base.len() > 0,
        base[0] != '*',
        base[0] != '[',
        base.last() != '.',
        is_ascii_chars(base),
        forall|i: int|
            0 <= i < base.len() ==> plain_char(#[trigger] base[i]) && base[i] != ':' && base[i]
                != '*',
{
    let low = lowered(base);
    lemma_plain_chars(low);
    assert(low.last() == ascii_lower(base.last()));
    assert forall|i: int| 0 <= i < base.len() implies plain_char(#[trigger] base[i]) && base[i]
        != ':' && base[i] != '*' && base[i] <= '\u{7f}' && (i == 0 ==> base[i] != '[') by {
        assert(low[i] == ascii_lower(base[i]));
        assert(CharClass::LabelInside.has(low[i]) || low[i] == '.');
    }
}

/// The characters of such a host, behind `*.` or not.
proof fn lemma_star_chars(base: Seq<char>, wildcard: bool)
    requires
        plain_host(lowered(base)),
        ip_value(lowered(base)) is None,
    ensures
        ({
            let host = with_star(base, wildcard);
            &&& host.len() > 0
            &&& host[0] != '['
            &&& host.last() == base.last()
            &&& forall|i: int| 0 <= i < host.len() ==> plain_char(#[trigger] host[i])
            &&& !has_any(host, CharClass::Is(':'))
            &&& "*."@.is_prefix_of(host) == wildcard
            &&& wildcard ==> host.skip(2) == base
            &&& ip_value(host) is None
            &&& ip_value(base) is None
        }),
{
    reveal_strlit("*.");
    lemma_capital_chars(base);
    let host = with_star(base, wildcard);
    let colon = CharClass::Is(':');
    assert forall|i: int| 0 <= i < host.len() implies plain_char(#[trigger] host[i])
        && !colon.has(host[i]) by {
        if wildcard {
            if i >= 2 {
                assert(host[i] == base[i - 2]);
            } else {
                assert(host[i] == "*."@[i]);
            }
        }
    }
    lemma_no_colon(base);
    lemma_no_colon(host);
    if is_lower(base) {
        lemma_lowered(base);
    } else {
        let i = choose|i: int| 0 <= i < base.len() && 'A' <= #[trigger] base[i] <= 'Z';
        lemma_not_an_address(base, i);
    }
    if wildcard {
        assert(host.subrange(0, 2) =~= "*."@);
        assert(host.skip(2) =~= base);
        lemma_not_an_address(host, 0);
    } else {
        lemma_no_star(host);
    }
}

/// A text without a colon has no `::` and is one part between colons.
proof fn lemma_no_colon(t: Seq<char>)
    requires
        forall|i: int| 0 <= i < t.len() ==> #[trigger] t[i] != ':',
    ensures
        first_occurrence(t, seq![':', ':']) is None,
        pieces(t, CharClass::Is(':')).len() == 1,
{
    let pat = seq![':', ':'];
    assert forall|m: int| 0 <= m implies !#[trigger] occurs_at(t, pat, m) by {
        if occurs_at(t, pat, m) {
            assert(t.subrange(m, m + 2)[0] == t[m]);
        }
    }
    lemma_not_found(t, pat, 0);
    lemma_one_piece(t, CharClass::Is(':'));
}

#[verifier::rlimit(40)]
proof fn lemma_plain_parts(base: Seq<char>, wildcard: bool, port: Option<u16>)
    requires
        plain_host(lowered(base)),
        ip_value(lowered(base)) is None,
        is_port(port),
    ensures
        ({
            let host = with_star(base, wildcard);
            let t = host_and_port(host, port);
            &&& t.len() > 0
            &&& unquoted(t) == t
            &&& trimmed(t, CharClass::Whitespace) == t
            &&& input_parts(t) == Some(ParsedView { host, port, scheme: None, reason: None })
        }),
{
    let host = with_star(base, wildcard);
    let t = host_and_port(host, port);
    let n = host.len() as int;
    let colon = CharClass::Is(':');
    lemma_star_chars(base, wildcard);
    let d = decimal(port->0 as nat);
    assert(t == (match port {
        Some(p) => host + seq![':'] + d,
        None => host,
    }));
    if port is Some {
        lemma_decimal(port->0 as nat);
        lemma_port_read_back(port->0);
        assert forall|m: int| n < m < t.len() implies CharClass::Digit.has(#[trigger] t[m]) by {
            assert(t[m] == d[m - n - 1]);
            assert(CharClass::Digit.has(d[m - n - 1]));
        }
    }
    assert forall|m: int| 0 <= m < n implies #[trigger] t[m] == host[m] && !colon.has(t[m]) by {
        assert(!colon.has(host[m]));
    }
    assert forall|i: int| 0 <= i < t.len() implies plain_char(#[trigger] t[i]) by {
        if i < n {
            assert(t[i] == host[i]);
        }
    }
    lemma_bare_input(t);
    assert(t[0] == host[0]);
    if port is Some {
        lemma_no_address(host, d);
        lemma_index_is(t, colon, 0, n);
        lemma_last_index_is(t, colon, t.len() as int, n);
        assert(t.take(n) =~= host);
        assert(t.skip(n + 1) =~= d);
    } else {
        lemma_index_is(t, colon, 0, t.len() as int);
    }
}

/// A host that is in its final form but for capitals is prepared as it is.
#[verifier::rlimit(40)]
proof fn lemma_plain_input(base: Seq<char>, wildcard: bool, port: Option<u16>)
    requires
        plain_host(lowered(base)),
        ip_value(lowered(base)) is None,
        is_port(port),
    ensures
        ({
            let host = with_star(base, wildcard);
            let raw = host_and_port(host, port);
            prepared(raw) == (PreparedView::Domain {
                raw,
                host,
                body: base,
                wildcard,
                port,
                scheme: None,
            })
        }),
{
    let host = with_star(base, wildcard);
    lemma_plain_parts(base, wildcard, port);
    assert(host.len() > 0 && unquoted(host) == host) by {
        lemma_star_chars(base, wildcard);
        assert(plain_char(host[0]) && plain_char(host[host.len() - 1]));
        lemma_unchanged_by_trim(host, CharClass::Whitespace);
        lemma_unchanged_by_trim(host, CharClass::Surrounding);
    }
    assert("*."@.is_prefix_of(host) == wildcard && host_body(host) == base && ip_form(base)
        is None) by {
        lemma_star_chars(base, wildcard);
        lemma_capital_chars(base);
        lemma_unchanged_by_trim(base, CharClass::Is('.'));
    }
}

/// The form of a name that is in its final form but for capitals is that name in
/// lowercase.
proof fn lemma_plain_form(base: Seq<char>)
    requires
        plain_host(lowered(base)),
    ensures
        domain_form(base) == Some(lowered(base)),
{
    let name = lowered(base);
    let dot = CharClass::Is('.');
    let labels = pieces(name, dot);
    let forms = labels.map_values(|l: Seq<char>| label_form(l));
    lemma_capital_chars(base);
    lemma_plain_chars(name);
    lemma_lowered(base);
    assert(plain_char(base[0]) && plain_char(base[base.len() - 1]));
    lemma_unchanged_by_trim(base, CharClass::Whitespace);
    lemma_unchanged_by_trim(base, dot);
    assert(is_ascii_chars(name)) by {
        assert forall|i: int| 0 <= i < name.len() implies '\0' <= #[trigger] name[i]
            <= '\u{7f}' by {
            assert(CharClass::LabelInside.has(name[i]) || name[i] == '.');
        }
    }
    assert forall|i: int| 0 <= i < labels.len() implies #[trigger] forms[i] == Some(labels[i]) by {
        assert(plain_label(labels[i]));
        assert(is_ascii_chars(labels[i])) by {
            assert forall|j: int| 0 <= j < labels[i].len() implies '\0' <= #[trigger] labels[i][j]
                <= '\u{7f}' by {
                assert(CharClass::LabelInside.has(labels[i][j]));
            }
        }
    }
    assert(forms.map_values(|l: Option<Seq<char>>| l->0) =~= labels);
    reveal_strlit(".");
    lemma_pieces_joined(name, '.', 0);
    assert(name.skip(0) =~= name);
    assert("."@ =~= seq!['.']);
}

/// A name that is in its final form but for capitals, and is no address, has that name in
/// lowercase as its normal form, with or without a port and a leading `*.`.
pub proof fn law_names_are_lowered(base: Seq<char>, wildcard: bool, port: Option<u16>)
    requires
        plain_host(lowered(base)),
        ip_value(lowered(base)) is None,
        is_port(port),
    ensures
        normal_form(host_and_port(with_star(base, wildcard), port)) == accepted(
            host_and_port(with_star(base, wildcard), port),
            with_star(lowered(base), wildcard),
            port,
            None,
        ),
{
    lemma_plain_input(base, wildcard, port);
    lemma_plain_form(base);
}

proof fn lemma_literal_parts(ip: IpAddr)
    ensures
        unquoted(ip.text()) == ip.text(),
        trimmed(ip.text(), CharClass::Whitespace) == ip.text(),
        input_parts(ip.text()) == Some(without_port(ip.text(), None, None)),
{
    let x = ip.text();
    crate::ip::lemma_address_text(ip);
    crate::ip::law_addresses_are_read_back(ip);
    assert forall|i: int| 0 <= i < x.len() implies plain_char(#[trigger] x[i]) by {}
    lemma_bare_input(x);
    assert(CharClass::HexDigit.has(x[0]) || x[0] == ':' || x[0] == '.');
}

proof fn lemma_v4_port_parts(v: u32, port: u16)
    requires
        port > 0,
    ensures
        ({
            let t = v4_text(v) + seq![':'] + decimal(port as nat);
            &&& unquoted(t) == t
            &&& trimmed(t, CharClass::Whitespace) == t
            &&& input_parts(t) == Some(
                ParsedView { host: v4_text(v), port: Some(port), scheme: None, reason: None },
            )
        }),
{
    let x = v4_text(v);
    let d = decimal(port as nat);
    let t = x + seq![':'] + d;
    let n = x.len() as int;
    let colon = CharClass::Is(':');
    crate::ip::lemma_v4_chars(v);
    lemma_decimal(port as nat);
    lemma_port_read_back(port);
    assert(!has_any(x, colon)) by {
        assert forall|i: int| 0 <= i < x.len() implies !colon.has(#[trigger] x[i]) by {
            assert(CharClass::Digit.has(x[i]) || x[i] == '.');
        }
    }
    lemma_no_address(x, d);
    assert forall|i: int| 0 <= i < t.len() implies plain_char(#[trigger] t[i]) by {
        if i < n {
            assert(t[i] == x[i]);
        } else if i > n {
            assert(t[i] == d[i - n - 1]);
            assert(CharClass::Digit.has(d[i - n - 1]));
        }
    }
    lemma_bare_input(t);
    assert(t[0] == x[0]);
    assert forall|m: int| 0 <= m < n implies !colon.has(#[trigger] t[m]) by {
        assert(t[m] == x[m]);
    }
    assert forall|m: int| n < m < t.len() implies !colon.has(#[trigger] t[m]) by {
        assert(t[m] == d[m - n - 1]);
        assert(CharClass::Digit.has(d[m - n - 1]));
    }
    lemma_index_is(t, colon, 0, n);
    lemma_last_index_is(t, colon, t.len() as int, n);
    assert(t.take(n) =~= x);
    assert(t.skip(n + 1) =~= d);
}

proof fn lemma_v6_port_parts(v: u128, port: u16)
    requires
        port > 0,
    ensures
        ({
            let t = seq!['['] + v6_text(v) + seq![']', ':'] + decimal(port as nat);
            &&& unquoted(t) == t
            &&& trimmed(t, CharClass::Whitespace) == t
            &&& input_parts(t) == Some(
                ParsedView { host: v6_text(v), port: Some(port), scheme: None, reason: None },
            )
        }),
{
    let x = v6_text(v);
    let d = decimal(port as nat);
    let t = seq!['['] + x + seq![']', ':'] + d;
    let end = x.len() as int + 1;
    crate::ip::lemma_address_text(IpAddr::V6(v));
    assert(x == IpAddr::V6(v).text());
    lemma_decimal(port as nat);
    lemma_port_read_back(port);
    assert forall|i: int| 0 <= i < t.len() implies plain_char(#[trigger] t[i]) by {
        if 1 <= i < end {
            assert(t[i] == x[i - 1]);
        } else if i >= end + 2 {
            assert(t[i] == d[i - end - 2]);
            assert(CharClass::Digit.has(d[i - end - 2]));
        }
    }
    lemma_bare_input(t);
    assert forall|m: int| 0 <= m < end implies !CharClass::Is(']').has(#[trigger] t[m]) by {
        if m > 0 {
            assert(t[m] == x[m - 1]);
        }
    }
    lemma_index_is(t, CharClass::Is(']'), 0, end);
    assert(t.subrange(1, end) =~= x);
    assert(t.skip(end + 1) =~= seq![':'] + d);
    assert((seq![':'] + d).skip(1) =~= d);
}

proof fn lemma_address_parts(ip: IpAddr, port: Option<u16>)
    requires
        is_port(port),
    ensures
        ({
            let raw = host_and_port(ip.text(), port);
            &&& raw.len() > 0
            &&& unquoted(raw) == raw
            &&& trimmed(raw, CharClass::Whitespace) == raw
            &&& input_parts(raw) == Some(
                ParsedView { host: ip.text(), port, scheme: None, reason: None },
            )
        }),
{
    let x = ip.text();
    crate::ip::lemma_address_text(ip);
    lemma_no_star(x);
    match (ip, port) {
        (_, None) => {
            lemma_literal_parts(ip);
        },
        (IpAddr::V4(v), Some(p)) => {
            lemma_v4_port_parts(v, p);
        },
        (IpAddr::V6(v), Some(p)) => {
            lemma_v6_port_parts(v, p);
        },
    }
}

/// A text that begins with no asterisk does not begin with `*.`.
pub proof fn lemma_no_star(x: Seq<char>)
    requires
        x.len() > 0 ==> x[0] != '*',
    ensures
        !("*."@.is_prefix_of(x)),
{
    reveal_strlit("*.");
    if "*."@.is_prefix_of(x) {
        assert(x.subrange(0, 2)[0] == x[0]);
        assert("*."@[0] == '*');
    }
}

/// An address is its own normal form, with or without a port.
pub proof fn law_addresses_are_normal(ip: IpAddr, port: Option<u16>)
    requires
        is_port(port),
    ensures
        normal_form(host_and_port(ip.text(), port)) == accepted(
            host_and_port(ip.text(), port),
            ip.text(),
            port,
            None,
        ),
{
    let x = ip.text();
    lemma_address_parts(ip, port);
    crate::ip::lemma_address_text(ip);
    crate::ip::law_addresses_are_read_back(ip);
    assert(CharClass::HexDigit.has(x[0]) || x[0] == ':' || x[0] == '.');
    assert(CharClass::HexDigit.has(x[x.len() - 1]) || x[x.len() - 1] == ':');
    lemma_unchanged_by_trim(x, CharClass::Whitespace);
    lemma_unchanged_by_trim(x, CharClass::Surrounding);
    lemma_no_star(x);
    assert(host_body(x) == x) by {
        assert(without_trailing(x, CharClass::Is('.')) =~= x);
    }
}

/// The display form of a host with an optional port.
pub open spec fn host_and_port(host: Seq<char>, port: Option<u16>) -> Seq<char> {
    match port {
        None => host,
        Some(p) => if has_any(host, CharClass::Is(':')) && !("*."@.is_prefix_of(host)) {
            seq!['['] + host + seq![']', ':'] + decimal(p as nat)
        } else {
            host + seq![':'] + decimal(p as nat)
        },
    }
}

/// Builds the display form of a host with an optional port.
pub fn canonical_value(host: &str, port: Option<u16>) -> (r: String)
    ensures
        r@ == host_and_port(host@, port),
{
    match port {
        None => host.to_string(),
        Some(p) => {
            let chars = chars_of(host);
            let mut out = String::new();
            if contains_any(chars.as_slice(), CharClass::Is(':')) && !starts_with(
                chars.as_slice(),
                "*.",
            ) {
                out.push('[');
                out.append(host);
                out.push(']');
                out.push(':');
            } else {
                out.append(host);
                out.push(':');
            }
            out.append(decimal_of(p as u128).as_str());
            assert(out@ =~= host_and_port(host@, port));
            out
        },
    }
}

/// The record of a normalized input that is still to be classified.
pub open spec fn skeleton(n: NormalizedView) -> AssetView {
    fresh(
        n.raw,
        n.host,
        AssetKind::Garbage,
        None,
        n.port,
        n.scheme,
        if n.valid {
            None
        } else {
            n.reason
        },
    )
}

/// Builds an asset whose classification is still open: its kind is `Garbage` until
/// it is classified.
pub fn to_asset_skeleton(norm: Normalized) -> (r: Asset)
    ensures
        r@ == skeleton(norm@),
{
    let reason = if norm.valid {
        None
    } else {
        match norm.reason {
            Some(s) => Some(s.to_string()),
            None => None,
        }
    };
    Asset::fresh(norm.raw, norm.host, AssetKind::Garbage, None, norm.port, norm.scheme, reason)
}

// ---------------------------------------------------------------------------
// URLs

/// Whether a text can be the scheme of a URL.
pub open spec fn scheme_text(s: Seq<char>) -> bool {
    s.len() > 0 && CharClass::Letter.has(s[0]) && has_only(s, CharClass::SchemeChar)
}

/// Whether a text is what can follow the authority of a URL: nothing, or a path, a query or a
/// fragment.
pub open spec fn url_tail(x: Seq<char>) -> bool {
    x.len() == 0 || x[0] == '/' || x[0] == '?' || x[0] == '#'
}

/// Whether a text is what can stand before the host in the authority of a URL: nothing, or
/// user information with its `@`.
pub open spec fn userinfo_text(u: Seq<char>) -> bool {
    &&& u.len() == 0 || u.last() == '@'
    &&& forall|i: int|
        0 <= i < u.len() ==> (#[trigger] u[i]) != '/' && u[i] != '?' && u[i] != '#'
}

/// A URL.
pub open spec fn url_text(s: Seq<char>, u: Seq<char>, authority: Seq<char>, x: Seq<char>) -> Seq<
    char,
> {
    s + seq![':', '/', '/'] + u + authority + x
}

/// The port that is left of a port: none if the scheme implies it.
pub open spec fn port_left(s: Seq<char>, port: Option<u16>) -> Option<u16> {
    if (lowered(s) == "http"@ && port == Some(80u16)) || (lowered(s) == "https"@ && port == Some(
        443u16,
    )) {
        None
    } else {
        port
    }
}

/// The parts of an authority without user information.
spec fn authority_parts(authority: Seq<char>, scheme: Option<Seq<char>>) -> Option<ParsedView> {
    let colon = last_index(authority, CharClass::Is(':'));
    if authority[0] == '[' {
        bracketed_parts(authority, scheme)
    } else if colon < 0 || ip_value(authority) is Some {
        Some(without_port(authority, scheme, None))
    } else if colon + 1 == authority.len() {
        Some(without_port(authority.take(colon), scheme, None))
    } else {
        Some(with_port(authority.take(colon), authority.skip(colon + 1), scheme))
    }
}

proof fn lemma_tail_is_cut(head: Seq<char>, x: Seq<char>, k: CharClass) -> (m: int)
    requires
        head.len() > 0,
        !k.has(head[0]),
        !k.has(head.last()),
    ensures
        0 <= m <= x.len(),
        trimmed(head + x, k) == head + x.take(m),
{
    let t = head + x;
    let n = t.len() as int;
    assert(without_leading(t, k) =~= t) by {
        assert(t[0] == head[0]);
    }
    crate::text::lemma_end_before(t, k, n);
    let e = crate::text::end_before(t, k, n);
    assert(e >= head.len()) by {
        if e < head.len() {
            assert(k.has(t[head.len() - 1]));
        }
    }
    let m = e - head.len();
    assert(t.subrange(0, e) =~= head + x.take(m));
    m
}

proof fn lemma_tail_is_unquoted(head: Seq<char>, x: Seq<char>) -> (m: int)
    requires
        head.len() > 0,
        plain_char(head[0]) || head[0] == '/',
        plain_char(head.last()),
    ensures
        0 <= m <= x.len(),
        trimmed(head + x, CharClass::Whitespace).len() > 0,
        unquoted(head + x) == head + x.take(m),
{
    let m1 = lemma_tail_is_cut(head, x, CharClass::Whitespace);
    let m2 = lemma_tail_is_cut(head, x.take(m1), CharClass::Surrounding);
    assert(x.take(m1).take(m2) =~= x.take(m2));
    m2
}

proof fn lemma_url_parts(s: Seq<char>, u: Seq<char>, authority: Seq<char>, x: Seq<char>)
    requires
        scheme_text(s),
        userinfo_text(u),
        url_tail(x),
        authority.len() > 0,
        forall|i: int| 0 <= i < authority.len() ==> plain_char(#[trigger] authority[i]),
    ensures
        input_parts(url_text(s, u, authority, x)) == authority_parts(
            authority,
            Some(lowered(s)),
        ),
{
    reveal_strlit("://");
    reveal_strlit("//");
    let t = url_text(s, u, authority, x);
    let n = s.len() as int;
    let colon = CharClass::Is(':');
    assert forall|i: int| 0 <= i < n implies !colon.has(#[trigger] t[i]) by {
        assert(t[i] == s[i]);
        assert(CharClass::SchemeChar.has(s[i]));
    }
    assert(t[n] == ':' && t[n + 1] == '/' && t[n + 2] == '/');
    lemma_index_is(t, colon, 0, n);
    assert(t.subrange(n, n + 3) =~= "://"@);
    assert(t.take(n) =~= s);
    assert(t[0] == s[0]);
    assert(begins_with_scheme(t));
    assert(!("//"@.is_prefix_of(t))) by {
        if "//"@.is_prefix_of(t) {
            assert(t.subrange(0, 2)[0] == t[0]);
            assert("//"@[0] == '/');
        }
    }
    assert forall|m: int| 0 <= m < n implies !#[trigger] occurs_at(t, "://"@, m) by {
        if occurs_at(t, "://"@, m) {
            assert(t.subrange(m, m + 3)[0] == t[m]);
            assert("://"@[0] == ':');
        }
    }
    crate::text::lemma_found_at(t, "://"@, 0, n);
    let after = t.skip(n + 3);
    let full = u + authority;
    assert(after =~= full + x);
    let e = full.len() as int;
    let end = CharClass::AuthorityEnd;
    assert forall|i: int| 0 <= i < e implies !end.has(#[trigger] after[i]) by {
        if i < u.len() {
            assert(after[i] == u[i]);
        } else {
            assert(after[i] == authority[i - u.len()]);
            assert(plain_char(authority[i - u.len()]));
        }
    }
    if x.len() > 0 {
        assert(after[e] == x[0]);
    }
    lemma_index_is(after, end, 0, e);
    assert(after.take(e) =~= full);
    let at = CharClass::Is('@');
    assert forall|i: int| u.len() <= i < e implies !at.has(#[trigger] full[i]) by {
        assert(full[i] == authority[i - u.len()]);
        assert(plain_char(authority[i - u.len()]));
    }
    if u.len() > 0 {
        assert(full[u.len() - 1] == '@');
    }
    lemma_last_index_is(full, at, e, u.len() - 1);
    assert(full.skip(u.len() as int) =~= authority);
}

/// What a URL of a plain name is split into.
#[verifier::rlimit(40)]
proof fn lemma_name_authority(base: Seq<char>, wildcard: bool, port: Option<u16>, s: Seq<char>)
    requires
        plain_host(lowered(base)),
        ip_value(lowered(base)) is None,
        is_port(port),
    ensures
        ({
            let host = with_star(base, wildcard);
            let authority = host_and_port(host, port);
            &&& authority.len() > 0
            &&& forall|i: int| 0 <= i < authority.len() ==> plain_char(#[trigger] authority[i])
            &&& authority_parts(authority, Some(s)) == Some(
                ParsedView { host, port, scheme: Some(s), reason: None },
            )
        }),
{
    let host = with_star(base, wildcard);
    let t = host_and_port(host, port);
    let n = host.len() as int;
    let colon = CharClass::Is(':');
    lemma_star_chars(base, wildcard);
    let d = decimal(port->0 as nat);
    assert(t == (match port {
        Some(p) => host + seq![':'] + d,
        None => host,
    }));
    if port is Some {
        lemma_decimal(port->0 as nat);
        lemma_port_read_back(port->0);
        assert forall|m: int| n < m < t.len() implies CharClass::Digit.has(#[trigger] t[m]) by {
            assert(t[m] == d[m - n - 1]);
            assert(CharClass::Digit.has(d[m - n - 1]));
        }
    }
    assert forall|m: int| 0 <= m < n implies #[trigger] t[m] == host[m] && !colon.has(t[m]) by {
        assert(!colon.has(host[m]));
    }
    assert forall|i: int| 0 <= i < t.len() implies plain_char(#[trigger] t[i]) by {
        if i < n {
            assert(t[i] == host[i]);
        }
    }
    assert(t[0] == host[0]);
    if port is Some {
        lemma_no_address(host, d);
        lemma_last_index_is(t, colon, t.len() as int, n);
        assert(t.take(n) =~= host);
        assert(t.skip(n + 1) =~= d);
    } else {
        lemma_last_index_is(t, colon, t.len() as int, -1);
    }
}

/// The host, port and scheme of a URL of a name do not depend on its user information, path,
/// query and fragment, whatever these hold: the host is the name in lowercase, the scheme is
/// in lowercase, and the port is kept unless the scheme implies it.
#[verifier::rlimit(60)]
pub proof fn law_url_host_is_its_authority(
    s: Seq<char>,
    u: Seq<char>,
    base: Seq<char>,
    wildcard: bool,
    port: Option<u16>,
    x: Seq<char>,
)
    requires
        scheme_text(s),
        userinfo_text(u),
        url_tail(x),
        plain_host(lowered(base)),
        ip_value(lowered(base)) is None,
        is_port(port),
    ensures
        ({
            let t = url_text(s, u, host_and_port(with_star(base, wildcard), port), x);
            normal_form(t) == (NormalizedView {
                raw: t,
                host: with_star(lowered(base), wildcard),
                port: port_left(s, port),
                scheme: Some(lowered(s)),
                valid: true,
                reason: None,
            })
        }),
{
    let host = with_star(base, wildcard);
    let authority = host_and_port(host, port);
    let t = url_text(s, u, authority, x);
    lemma_name_authority(base, wildcard, port, lowered(s));
    let head = s + seq![':', '/', '/'] + u + authority;
    assert(head[0] == s[0]);
    assert(head.last() == authority[authority.len() - 1]);
    let m = lemma_tail_is_unquoted(head, x);
    let y = x.take(m);
    assert(url_tail(y)) by {
        if y.len() > 0 {
            assert(y[0] == x[0]);
        }
    }
    assert(unquoted(t) == url_text(s, u, authority, y));
    lemma_url_parts(s, u, authority, y);
    lemma_accepted_name(t, base, wildcard, port, Some(lowered(s)));
}

/// An input that is split into a plain name, a port and a scheme has these as its normal
/// form.
proof fn lemma_accepted_name(
    t: Seq<char>,
    base: Seq<char>,
    wildcard: bool,
    port: Option<u16>,
    scheme: Option<Seq<char>>,
)
    requires
        trimmed(t, CharClass::Whitespace).len() > 0,
        input_parts(unquoted(t)) == Some(
            ParsedView { host: with_star(base, wildcard), port, scheme, reason: None },
        ),
        plain_host(lowered(base)),
        ip_value(lowered(base)) is None,
    ensures
        normal_form(t) == accepted(t, with_star(lowered(base), wildcard), port, scheme),
{
    assert(prepared(t) == (PreparedView::Domain {
        raw: t,
        host: with_star(base, wildcard),
        body: base,
        wildcard,
        port,
        scheme,
    })) by {
        lemma_plain_host_body(base, wildcard);
    }
    lemma_plain_form(base);
}

proof fn lemma_plain_host_body(base: Seq<char>, wildcard: bool)
    requires
        plain_host(lowered(base)),
        ip_value(lowered(base)) is None,
    ensures
        ({
            let host = with_star(base, wildcard);
            &&& host.len() > 0
            &&& unquoted(host) == host
            &&& "*."@.is_prefix_of(host) == wildcard
            &&& host_body(host) == base
            &&& ip_form(base) is None
        }),
{
    let host = with_star(base, wildcard);
    lemma_star_chars(base, wildcard);
    lemma_capital_chars(base);
    assert(plain_char(host[0]) && plain_char(host[host.len() - 1]));
    lemma_unchanged_by_trim(host, CharClass::Whitespace);
    lemma_unchanged_by_trim(host, CharClass::Surrounding);
    lemma_unchanged_by_trim(base, CharClass::Is('.'));
}

/// A URL without a scheme is an `http` URL.
#[verifier::rlimit(60)]
pub proof fn law_scheme_relative_urls_are_http(
    u: Seq<char>,
    base: Seq<char>,
    wildcard: bool,
    port: Option<u16>,
    x: Seq<char>,
)
    requires
        userinfo_text(u),
        url_tail(x),
        plain_host(lowered(base)),
        ip_value(lowered(base)) is None,
        is_port(port),
    ensures
        ({
            let authority = host_and_port(with_star(base, wildcard), port);
            let t = seq!['/', '/'] + u + authority + x;
            normal_form(t) == (NormalizedView {
                raw: t,
                ..normal_form(url_text("http"@, u, authority, x))
            })
        }),
{
    reveal_strlit("http");
    let s = "http"@;
    lemma_relative_form(u, base, wildcard, port, x);
    assert(scheme_text(s));
    law_url_host_is_its_authority(s, u, base, wildcard, port, x);
}

#[verifier::rlimit(60)]
proof fn lemma_relative_form(
    u: Seq<char>,
    base: Seq<char>,
    wildcard: bool,
    port: Option<u16>,
    x: Seq<char>,
)
    requires
        userinfo_text(u),
        url_tail(x),
        plain_host(lowered(base)),
        ip_value(lowered(base)) is None,
        is_port(port),
    ensures
        ({
            let t = seq!['/', '/'] + u + host_and_port(with_star(base, wildcard), port) + x;
            normal_form(t) == accepted(
                t,
                with_star(lowered(base), wildcard),
                port,
                Some(lowered("http"@)),
            )
        }),
{
    let s = "http"@;
    let authority = host_and_port(with_star(base, wildcard), port);
    let head = seq!['/', '/'] + u + authority;
    let t = head + x;
    lemma_name_authority(base, wildcard, port, lowered(s));
    assert(head.last() == authority[authority.len() - 1]);
    let m = lemma_tail_is_unquoted(head, x);
    let y = x.take(m);
    assert(url_tail(y)) by {
        if y.len() > 0 {
            assert(y[0] == x[0]);
        }
    }
    lemma_relative_parts(u, authority, y);
    lemma_accepted_name(t, base, wildcard, port, Some(lowered(s)));
}

proof fn lemma_relative_parts(u: Seq<char>, authority: Seq<char>, y: Seq<char>)
    requires
        userinfo_text(u),
        url_tail(y),
        authority.len() > 0,
        forall|i: int| 0 <= i < authority.len() ==> plain_char(#[trigger] authority[i]),
    ensures
        input_parts(seq!['/', '/'] + u + authority + y) == authority_parts(
            authority,
            Some(lowered("http"@)),
        ),
{
    reveal_strlit("http");
    reveal_strlit("http:");
    reveal_strlit("//");
    let s = "http"@;
    let t = seq!['/', '/'] + u + authority + y;
    let url = url_text(s, u, authority, y);
    assert(t.subrange(0, 2) =~= "//"@);
    assert(t[0] == '/');
    assert("http:"@ + t =~= url);
    lemma_url_parts(s, u, authority, y);
    assert(url[0] == 'h');
    assert(!("//"@.is_prefix_of(url))) by {
        if "//"@.is_prefix_of(url) {
            assert(url.subrange(0, 2)[0] == url[0]);
            assert("//"@[0] == '/');
        }
    }
    lemma_begins_with_scheme(s, u + authority + y);
    assert(url =~= s + seq![':', '/', '/'] + (u + authority + y));
    assert(input_parts(url) == url_parts(url));
    assert(url_parts(t) == url_parts(url));
}

proof fn lemma_begins_with_scheme(s: Seq<char>, rest: Seq<char>)
    requires
        scheme_text(s),
    ensures
        begins_with_scheme(s + seq![':', '/', '/'] + rest),
{
    reveal_strlit("://");
    let t = s + seq![':', '/', '/'] + rest;
    let n = s.len() as int;
    let colon = CharClass::Is(':');
    assert forall|i: int| 0 <= i < n implies !colon.has(#[trigger] t[i]) by {
        assert(t[i] == s[i]);
        assert(CharClass::SchemeChar.has(s[i]));
    }
    lemma_index_is(t, colon, 0, n);
    assert(t.subrange(n, n + 3) =~= "://"@);
    assert(t.take(n) =~= s);
    assert(t[0] == s[0]);
}

/// The host and port of an input without a scheme do not depend on a path, a query or a
/// fragment behind them. There is no scheme, and every port is kept.
#[verifier::rlimit(60)]
pub proof fn law_bare_host_is_before_the_path(
    base: Seq<char>,
    wildcard: bool,
    port: Option<u16>,
    x: Seq<char>,
)
    requires
        url_tail(x),
        !x.contains('@'),
        plain_host(lowered(base)),
        ip_value(lowered(base)) is None,
        is_port(port),
    ensures
        ({
            let t = host_and_port(with_star(base, wildcard), port) + x;
            normal_form(t) == (NormalizedView {
                raw: t,
                host: with_star(lowered(base), wildcard),
                port,
                scheme: None,
                valid: true,
                reason: None,
            })
        }),
{
    let host = with_star(base, wildcard);
    let head = host_and_port(host, port);
    let t = head + x;
    lemma_name_authority(base, wildcard, port, Seq::empty());
    lemma_plain_parts(base, wildcard, port);
    assert(plain_char(head[0]) && plain_char(head[head.len() - 1]));
    let m = lemma_tail_is_unquoted(head, x);
    let y = x.take(m);
    assert(!y.contains('@')) by {
        if y.contains('@') {
            let i = choose|i: int| 0 <= i < y.len() && y[i] == '@';
            assert(x[i] == '@');
        }
    }
    assert(url_tail(y)) by {
        if y.len() > 0 {
            assert(y[0] == x[0]);
        }
    }
    assert(head.last() != ':') by {
        lemma_star_chars(base, wildcard);
        lemma_capital_chars(base);
        if let Some(p) = port {
            let d = decimal(p as nat);
            lemma_decimal(p as nat);
            assert(head.last() == d[d.len() - 1]);
            assert(CharClass::Digit.has(d[d.len() - 1]));
        } else {
            assert(base[base.len() - 1] != ':');
        }
    }
    lemma_bare_tail(head, y);
    lemma_accepted_name(t, base, wildcard, port, None);
}

/// What is split of an input without a scheme is what stands before a path.
proof fn lemma_bare_tail(head: Seq<char>, y: Seq<char>)
    requires
        head.len() > 0,
        forall|i: int| 0 <= i < head.len() ==> plain_char(#[trigger] head[i]),
        head.last() != ':',
        url_tail(y),
        !y.contains('@'),
    ensures
        input_parts(head + y) == input_parts(head),
{
    reveal_strlit("//");
    reveal_strlit("://");
    let t = head + y;
    let n = head.len() as int;
    let end = CharClass::AuthorityEnd;
    let colon = CharClass::Is(':');
    lemma_bare_input(head);
    assert(plain_char(head[0]) && plain_char(head[n - 1]));
    assert(t[0] == head[0]);
    assert(!("//"@.is_prefix_of(t))) by {
        if "//"@.is_prefix_of(t) {
            assert(t.subrange(0, 2)[0] == t[0]);
            assert("//"@[0] == '/');
        }
    }
    assert(!begins_with_scheme(t)) by {
        let i = first_index(t, colon);
        if begins_with_scheme(t) {
            assert(t.subrange(i, i + 3)[1] == t[i + 1]);
            assert("://"@[1] == '/');
            crate::text::lemma_index_from(t, colon, 0);
            if i < n - 1 {
                assert(t[i + 1] == head[i + 1]);
                assert(plain_char(head[i + 1]));
            } else if i >= n {
                if i > n {
                    assert(t.take(i)[n] == y[0]);
                    assert(CharClass::SchemeChar.has(t.take(i)[n]));
                } else {
                    assert(t[i] == y[0]);
                    assert("://"@[0] == ':');
                    assert(t.subrange(i, i + 3)[0] == t[i]);
                }
            } else {
                assert(t[n - 1] == ':');
            }
        }
    }
    assert forall|i: int| 0 <= i < n implies !end.has(#[trigger] t[i]) by {
        assert(t[i] == head[i]);
        assert(plain_char(head[i]));
    }
    if y.len() > 0 {
        assert(t[n] == y[0]);
    }
    lemma_index_is(t, end, 0, n);
    assert(t.take(n) =~= head);
    assert forall|i: int| 0 <= i < n implies !end.has(#[trigger] head[i]) by {
        assert(plain_char(head[i]));
    }
    lemma_index_is(head, end, 0, n);
    assert(head.take(n) =~= head);
    assert(!has_any(t, CharClass::Is('@'))) by {
        assert forall|i: int| 0 <= i < t.len() implies !CharClass::Is('@').has(#[trigger] t[i]) by {
            if i < n {
                assert(plain_char(head[i]));
            } else {
                assert(t[i] == y[i - n]);
                assert(y.contains(y[i - n]));
            }
        }
    }
}

/// Normalization keeps what it was given.
pub proof fn lemma_raw_is_kept(raw: Seq<char>)
    ensures
        normal_form(raw).raw == raw,
{
}

/// Quotes, angle brackets and whitespace around an input make no difference to its host,
/// port and scheme.
#[verifier::rlimit(60)]
pub proof fn law_quotes_make_no_difference(
    a: Seq<char>,
    b: Seq<char>,
    base: Seq<char>,
    wildcard: bool,
    port: Option<u16>,
    c: Seq<char>,
    d: Seq<char>,
)
    requires
        has_only(a, CharClass::Whitespace),
        has_only(b, CharClass::Surrounding),
        has_only(c, CharClass::Surrounding),
        has_only(d, CharClass::Whitespace),
        plain_host(lowered(base)),
        ip_value(lowered(base)) is None,
        is_port(port),
    ensures
        ({
            let t = host_and_port(with_star(base, wildcard), port);
            let raw = a + (b + t + c) + d;
            normal_form(raw) == (NormalizedView { raw, ..normal_form(t) })
        }),
{
    let t = host_and_port(with_star(base, wildcard), port);
    let m = b + t + c;
    let raw = a + m + d;
    lemma_name_authority(base, wildcard, port, Seq::empty());
    lemma_plain_parts(base, wildcard, port);
    assert(plain_char(t[0]) && plain_char(t[t.len() - 1]));
    assert(!CharClass::Whitespace.has(m[0])) by {
        if b.len() > 0 {
            assert(m[0] == b[0]);
            assert(CharClass::Surrounding.has(b[0]));
        } else {
            assert(m[0] == t[0]);
        }
    }
    assert(!CharClass::Whitespace.has(m.last())) by {
        if c.len() > 0 {
            assert(m.last() == c[c.len() - 1]);
            assert(CharClass::Surrounding.has(c[c.len() - 1]));
        } else {
            assert(m.last() == t[t.len() - 1]);
        }
    }
    crate::text::law_trimming_undoes_padding(a, m, d, CharClass::Whitespace);
    crate::text::law_trimming_undoes_padding(b, t, c, CharClass::Surrounding);
    lemma_accepted_name(raw, base, wildcard, port, None);
    lemma_accepted_name(t, base, wildcard, port, None);
}

/// An input without a scheme is refused if there is an `@` in it, and if there is whitespace
/// within what stands before a path.
pub proof fn law_addresses_of_people_are_refused(raw: Seq<char>)
    requires
        raw.len() > 0,
        raw[0] != '/',
        !CharClass::Whitespace.has(raw[0]) && !CharClass::Whitespace.has(raw.last()),
        !CharClass::Surrounding.has(raw[0]) && !CharClass::Surrounding.has(raw.last()),
        !begins_with_scheme(raw),
    ensures
        raw.contains('@') ==> !normal_form(raw).valid,
        raw.contains(' ') && !raw.contains('/') && !raw.contains('?') && !raw.contains('#')
            ==> !normal_form(raw).valid,
{
    reveal_strlit("//");
    lemma_unchanged_by_trim(raw, CharClass::Whitespace);
    lemma_unchanged_by_trim(raw, CharClass::Surrounding);
    if "//"@.is_prefix_of(raw) {
        assert(raw.subrange(0, 2)[0] == raw[0]);
        assert("//"@[0] == '/');
    }
    if raw.contains('@') {
        let i = choose|i: int| 0 <= i < raw.len() && raw[i] == '@';
        assert(CharClass::Is('@').has(raw[i]));
        assert(has_any(raw, CharClass::Is('@')));
    } else if raw.contains(' ') && !raw.contains('/') && !raw.contains('?') && !raw.contains('#') {
        let end = CharClass::AuthorityEnd;
        assert forall|i: int| 0 <= i < raw.len() implies !end.has(#[trigger] raw[i]) by {
            assert(raw.contains(raw[i]));
        }
        lemma_index_is(raw, end, 0, raw.len() as int);
        assert(raw.take(raw.len() as int) =~= raw);
        let i = choose|i: int| 0 <= i < raw.len() && raw[i] == ' ';
        assert(CharClass::Whitespace.has(raw[i]));
        assert(has_any(raw, CharClass::Whitespace));
    }
}

/// A host with a port that is no number from 1 to 65535 is refused, with a scheme and
/// without.
#[verifier::rlimit(60)]
pub proof fn law_invalid_ports_are_refused(base: Seq<char>, p: Seq<char>, s: Seq<char>)
    requires
        plain_host(lowered(base)),
        ip_value(lowered(base)) is None,
        p.len() > 0,
        has_only(p, CharClass::Digit),
        port_number(p) is None,
        scheme_text(s),
    ensures
        !normal_form(base + seq![':'] + p).valid,
        !normal_form(url_text(s, Seq::empty(), base + seq![':'] + p, Seq::empty())).valid,
{
    let t = base + seq![':'] + p;
    let none = Seq::<char>::empty();
    lemma_port_parts(base, p, Some(lowered(s)));
    assert(plain_char(t[0]) && plain_char(t[t.len() - 1]));
    lemma_refused_parts(t);
    let url = url_text(s, none, t, none);
    let head = s + seq![':', '/', '/'] + none + t;
    assert(head[0] == s[0]);
    assert(head.last() == t[t.len() - 1]);
    let m = lemma_tail_is_unquoted(head, none);
    assert(none.take(m) =~= none);
    assert(url =~= head + none);
    lemma_url_parts(s, none, t, none);
    lemma_refused_parts(url);
}

proof fn lemma_refused_parts(raw: Seq<char>)
    requires
        input_parts(unquoted(raw)) is Some,
        input_parts(unquoted(raw))->0.reason is Some,
    ensures
        !normal_form(raw).valid,
{
}

#[verifier::rlimit(40)]
proof fn lemma_port_parts(base: Seq<char>, p: Seq<char>, scheme: Option<Seq<char>>)
    requires
        plain_host(lowered(base)),
        ip_value(lowered(base)) is None,
        p.len() > 0,
        has_only(p, CharClass::Digit),
    ensures
        ({
            let t = base + seq![':'] + p;
            &&& forall|i: int| 0 <= i < t.len() ==> plain_char(#[trigger] t[i])
            &&& unquoted(t) == t
            &&& input_parts(t) == Some(with_port(base, p, None))
            &&& authority_parts(t, scheme) == Some(with_port(base, p, scheme))
        }),
{
    let t = base + seq![':'] + p;
    let n = base.len() as int;
    let colon = CharClass::Is(':');
    lemma_capital_chars(base);
    assert forall|i: int| 0 <= i < n implies !colon.has(#[trigger] base[i]) by {}
    assert forall|i: int| 0 <= i < t.len() implies plain_char(#[trigger] t[i]) by {
        if i < n {
            assert(t[i] == base[i]);
        } else if i > n {
            assert(t[i] == p[i - n - 1]);
            assert(CharClass::Digit.has(p[i - n - 1]));
        }
    }
    assert forall|m: int| 0 <= m < n implies !colon.has(#[trigger] t[m]) by {
        assert(t[m] == base[m]);
    }
    assert forall|m: int| n < m < t.len() implies !colon.has(#[trigger] t[m]) by {
        assert(t[m] == p[m - n - 1]);
        assert(CharClass::Digit.has(p[m - n - 1]));
    }
    assert(!has_any(base, colon));
    lemma_no_address(base, p);
    lemma_bare_input(t);
    lemma_index_is(t, colon, 0, n);
    lemma_last_index_is(t, colon, t.len() as int, n);
    assert(t.take(n) =~= base);
    assert(t.skip(n + 1) =~= p);
    assert(t[0] == base[0]);
}

/// A URL of an address has that address as its host, whatever stands around its authority,
/// and keeps its port unless the scheme implies it.
#[verifier::rlimit(60)]
pub proof fn law_url_of_an_address(
    s: Seq<char>,
    u: Seq<char>,
    ip: IpAddr,
    port: Option<u16>,
    x: Seq<char>,
)
    requires
        scheme_text(s),
        userinfo_text(u),
        url_tail(x),
        is_port(port),
    ensures
        ({
            let t = url_text(s, u, host_and_port(ip.text(), port), x);
            normal_form(t) == (NormalizedView {
                raw: t,
                host: ip.text(),
                port: port_left(s, port),
                scheme: Some(lowered(s)),
                valid: true,
                reason: None,
            })
        }),
{
    let authority = host_and_port(ip.text(), port);
    let t = url_text(s, u, authority, x);
    lemma_address_authority(ip, port, lowered(s));
    let head = s + seq![':', '/', '/'] + u + authority;
    assert(head[0] == s[0]);
    assert(head.last() == authority[authority.len() - 1]);
    let m = lemma_tail_is_unquoted(head, x);
    let y = x.take(m);
    assert(url_tail(y)) by {
        if y.len() > 0 {
            assert(y[0] == x[0]);
        }
    }
    assert(unquoted(t) == url_text(s, u, authority, y));
    lemma_url_parts(s, u, authority, y);
    lemma_accepted_address(t, ip, port, Some(lowered(s)));
}

proof fn lemma_accepted_address(
    t: Seq<char>,
    ip: IpAddr,
    port: Option<u16>,
    scheme: Option<Seq<char>>,
)
    requires
        trimmed(t, CharClass::Whitespace).len() > 0,
        input_parts(unquoted(t)) == Some(
            ParsedView { host: ip.text(), port, scheme, reason: None },
        ),
    ensures
        normal_form(t) == accepted(t, ip.text(), port, scheme),
{
    let x = ip.text();
    crate::ip::lemma_address_text(ip);
    crate::ip::law_addresses_are_read_back(ip);
    assert(CharClass::HexDigit.has(x[0]) || x[0] == ':' || x[0] == '.');
    assert(CharClass::HexDigit.has(x[x.len() - 1]) || x[x.len() - 1] == ':');
    lemma_unchanged_by_trim(x, CharClass::Whitespace);
    lemma_unchanged_by_trim(x, CharClass::Surrounding);
    lemma_no_star(x);
    assert(host_body(x) == x) by {
        assert(without_trailing(x, CharClass::Is('.')) =~= x);
    }
}

proof fn lemma_address_authority(ip: IpAddr, port: Option<u16>, s: Seq<char>)
    requires
        is_port(port),
    ensures
        ({
            let authority = host_and_port(ip.text(), port);
            &&& authority.len() > 0
            &&& forall|i: int| 0 <= i < authority.len() ==> plain_char(#[trigger] authority[i])
            &&& authority_parts(authority, Some(s)) == Some(
                ParsedView { host: ip.text(), port, scheme: Some(s), reason: None },
            )
        }),
{
    let x = ip.text();
    let t = host_and_port(x, port);
    let colon = CharClass::Is(':');
    crate::ip::lemma_address_text(ip);
    crate::ip::law_addresses_are_read_back(ip);
    lemma_no_star(x);
    assert(CharClass::HexDigit.has(x[0]) || x[0] == ':' || x[0] == '.');
    assert forall|i: int| 0 <= i < x.len() implies plain_char(#[trigger] x[i]) by {}
    if let Some(p) = port {
        let d = decimal(p as nat);
        lemma_decimal(p as nat);
        lemma_port_read_back(p);
        if ip is V6 {
            let end = x.len() as int + 1;
            assert(t == seq!['['] + x + seq![']', ':'] + d);
            assert forall|i: int| 0 <= i < t.len() implies plain_char(#[trigger] t[i]) by {
                if 1 <= i < end {
                    assert(t[i] == x[i - 1]);
                } else if i >= end + 2 {
                    assert(t[i] == d[i - end - 2]);
                    assert(CharClass::Digit.has(d[i - end - 2]));
                }
            }
            assert forall|m: int| 0 <= m < end implies !CharClass::Is(']').has(#[trigger] t[m]) by {
                if m > 0 {
                    assert(t[m] == x[m - 1]);
                }
            }
            lemma_index_is(t, CharClass::Is(']'), 0, end);
            assert(t.subrange(1, end) =~= x);
            assert(t.skip(end + 1) =~= seq![':'] + d);
            assert((seq![':'] + d).skip(1) =~= d);
        } else {
            let n = x.len() as int;
            assert(t == x + seq![':'] + d);
            lemma_no_address(x, d);
            assert forall|m: int| 0 <= m < n implies !colon.has(#[trigger] t[m]) by {
                assert(t[m] == x[m]);
                assert(!colon.has(x[m]));
            }
            assert forall|m: int| n < m < t.len() implies !colon.has(#[trigger] t[m])
                && CharClass::Digit.has(t[m]) by {
                assert(t[m] == d[m - n - 1]);
                assert(CharClass::Digit.has(d[m - n - 1]));
            }
            assert forall|i: int| 0 <= i < t.len() implies plain_char(#[trigger] t[i]) by {
                if i < n {
                    assert(t[i] == x[i]);
                }
            }
            lemma_last_index_is(t, colon, t.len() as int, n);
            assert(t.take(n) =~= x);
            assert(t.skip(n + 1) =~= d);
            assert(t[0] == x[0]);
        }
    }
}

/// A dot at the end of a name makes no difference, and an authority may end with a colon that
/// no port follows.
#[verifier::rlimit(60)]
pub proof fn law_root_dot_and_empty_port_are_dropped(base: Seq<char>, s: Seq<char>)
    requires
        plain_host(lowered(base)),
        ip_value(lowered(base)) is None,
        scheme_text(s),
    ensures
        ({
            let dotted = base.push('.');
            normal_form(dotted) == accepted(dotted, lowered(base), None, None)
        }),
        ({
            let url = url_text(s, Seq::empty(), base.push(':'), Seq::empty());
            normal_form(url) == accepted(url, lowered(base), None, Some(lowered(s)))
        }),
{
    lemma_root_dot(base);
    let none = Seq::<char>::empty();
    let t = base.push(':');
    let n = base.len() as int;
    lemma_capital_chars(base);
    assert forall|i: int| 0 <= i < t.len() implies plain_char(#[trigger] t[i]) by {
        if i < n {
            assert(t[i] == base[i]);
        }
    }
    assert forall|m: int| 0 <= m < n implies !CharClass::Is(':').has(#[trigger] t[m]) by {
        assert(t[m] == base[m]);
    }
    assert(!has_any(base, CharClass::Is(':')));
    lemma_no_address(base, none);
    assert(base + seq![':'] + none =~= t);
    lemma_last_index_is(t, CharClass::Is(':'), t.len() as int, n);
    assert(t.take(n) =~= base);
    assert(t[0] == base[0]);
    let url = url_text(s, none, t, none);
    let head = s + seq![':', '/', '/'] + none + t;
    assert(head[0] == s[0]);
    assert(head.last() == ':');
    let m = lemma_tail_is_unquoted(head, none);
    assert(none.take(m) =~= none);
    assert(url =~= head + none);
    lemma_url_parts(s, none, t, none);
    lemma_accepted_name(url, base, false, None, Some(lowered(s)));
}

#[verifier::rlimit(60)]
proof fn lemma_root_dot(base: Seq<char>)
    requires
        plain_host(lowered(base)),
        ip_value(lowered(base)) is None,
    ensures
        normal_form(base.push('.')) == accepted(base.push('.'), lowered(base), None, None),
{
    reveal_strlit("*.");
    let t = base.push('.');
    let n = base.len() as int;
    let colon = CharClass::Is(':');
    lemma_capital_chars(base);
    assert forall|i: int| 0 <= i < t.len() implies plain_char(#[trigger] t[i]) && !colon.has(
        t[i],
    ) by {
        if i < n {
            assert(t[i] == base[i]);
        }
    }
    lemma_bare_input(t);
    lemma_index_is(t, colon, 0, t.len() as int);
    assert(t[0] == base[0]);
    lemma_plain_host_body(base, false);
    assert(!"*."@.is_prefix_of(t)) by {
        if "*."@.is_prefix_of(t) {
            assert("*."@[0] == '*');
            assert(t.subrange(0, 2)[0] == t[0]);
        }
    }
    assert(base.last() != '.');
    crate::text::law_trimming_undoes_padding(Seq::empty(), base, seq!['.'], CharClass::Is('.'));
    assert(base + seq!['.'] =~= t);
    assert(host_body(t) == base);
    lemma_plain_form(base);
    assert(prepared(t) == (PreparedView::Domain {
        raw: t,
        host: t,
        body: base,
        wildcard: false,
        port: None,
        scheme: None,
    }));
}

} // verus!

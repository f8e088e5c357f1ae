//! CDN identification by address range and by CNAME target.
//!
//! DNS validation uses it to tag hosts behind a CDN and to keep the rotating
//! addresses of a CDN from being taken for a wildcard.

use vstd::arithmetic::power2::pow2;
use vstd::prelude::*;
use vstd::slice::slice_subrange;

use crate::ip::IpAddr;
use crate::text::{
    char_texts, chars_of, ends_with, find, first_index, has_any, is_text, lines, lines_of, lowered,
    opt_literal, same_str, same_text, string_of, texts, to_lower, trim, trim_end, trimmed,
    without_trailing, CharClass,
};

verus! {

/// An IPv4 range of a provider.
#[derive(Debug, Clone, Copy)]
pub struct V4Range {
    pub provider: &'static str,
    pub addr: u32,
    pub prefix: u8,
}

/// An IPv6 range of a provider.
#[derive(Debug, Clone, Copy)]
pub struct V6Range {
    pub provider: &'static str,
    pub addr: u128,
    pub prefix: u8,
}

/// What an IPv4 range says: provider, address and prefix length.
pub open spec fn v4_views(v: Seq<V4Range>) -> Seq<(Seq<char>, u32, u8)> {
    v.map_values(|r: V4Range| (r.provider@, r.addr, r.prefix))
}

/// What an IPv6 range says: provider, address and prefix length.
pub open spec fn v6_views(v: Seq<V6Range>) -> Seq<(Seq<char>, u128, u8)> {
    v.map_values(|r: V6Range| (r.provider@, r.addr, r.prefix))
}

/// The known CDN address ranges.
#[derive(Debug)]
pub struct CdnTable {
    pub v4: Vec<V4Range>,
    pub v6: Vec<V6Range>,
}

/// What a table of ranges says.
pub struct CdnView {
    pub v4: Seq<(Seq<char>, u32, u8)>,
    pub v6: Seq<(Seq<char>, u128, u8)>,
}

impl View for CdnTable {
    type V = CdnView;

    open spec fn view(&self) -> CdnView {
        CdnView { v4: v4_views(self.v4@), v6: v6_views(self.v6@) }
    }
}

impl CdnView {
    /// Whether every prefix length fits its address family.
    pub open spec fn wf(self) -> bool {
        &&& forall|i: int| 0 <= i < self.v4.len() ==> (#[trigger] self.v4[i]).2 <= 32
        &&& forall|i: int| 0 <= i < self.v6.len() ==> (#[trigger] self.v6[i]).2 <= 128
    }
}

// ---------------------------------------------------------------------------
// CIDR blocks

/// What `Ipv4Net::from_str` reads from a text: address and prefix length.
pub uninterp spec fn v4_block(text: Seq<char>) -> Option<(u32, u8)>;

/// What `Ipv6Net::from_str` reads from a text: address and prefix length.
pub uninterp spec fn v6_block(text: Seq<char>) -> Option<(u128, u8)>;

/// Calls `ipnet::Ipv4Net::from_str`. Success and value are fixed by the text, and the
/// prefix length is at most 32. The grammar is not spelled out here.
#[verifier::external_body]
fn read_v4_block(text: &str) -> (r: Option<(u32, u8)>)
    ensures
        r == v4_block(text@),
        r matches Some(b) ==> b.1 <= 32,
{
    match text.parse::<ipnet::Ipv4Net>() {
        Ok(net) => Some((net.addr().into(), net.prefix_len())),
        Err(_) => None,
    }
}

/// Calls `ipnet::Ipv6Net::from_str`. Success and value are fixed by the text, and the
/// prefix length is at most 128. The grammar is not spelled out here.
#[verifier::external_body]
fn read_v6_block(text: &str) -> (r: Option<(u128, u8)>)
    ensures
        r == v6_block(text@),
        r matches Some(b) ==> b.1 <= 128,
{
    match text.parse::<ipnet::Ipv6Net>() {
        Ok(net) => Some((net.addr().into(), net.prefix_len())),
        Err(_) => None,
    }
}

/// Whether two addresses of `bits` bits agree in their first `prefix` bits.
pub open spec fn same_prefix(a: nat, b: nat, bits: nat, prefix: nat) -> bool {
    a / pow2((bits - prefix) as nat) == b / pow2((bits - prefix) as nat)
}

/// Calls `Ipv4Net::contains`: whether the address agrees with the block's in the
/// first `prefix` bits.
#[verifier::external_body]
fn v4_contains(addr: u32, prefix: u8, ip: u32) -> (r: bool)
    requires
        prefix <= 32,
    ensures
        r == same_prefix(addr as nat, ip as nat, 32, prefix as nat),
{
    let host = ipnet::Ipv4Net::new_assert(ip.into(), 32).addr();
    ipnet::Ipv4Net::new_assert(addr.into(), prefix).contains(&host)
}

/// Calls `Ipv6Net::contains`: whether the address agrees with the block's in the
/// first `prefix` bits.
#[verifier::external_body]
fn v6_contains(addr: u128, prefix: u8, ip: u128) -> (r: bool)
    requires
        prefix <= 128,
    ensures
        r == same_prefix(addr as nat, ip as nat, 128, prefix as nat),
{
    let host = ipnet::Ipv6Net::new_assert(ip.into(), 128).addr();
    ipnet::Ipv6Net::new_assert(addr.into(), prefix).contains(&host)
}

// ---------------------------------------------------------------------------
// The table

/// Whether a token names a provider of the table.
pub open spec fn known_provider(s: Seq<char>) -> bool {
    s == "cloudflare"@ || s == "fastly"@ || s == "github_pages"@
}

/// The provider and the block of a table line; blank lines, comments, lines without a
/// block and unknown providers have none.
pub open spec fn line_parts(line: Seq<char>) -> Option<(Seq<char>, Seq<char>)> {
    let text = trimmed(line, CharClass::Whitespace);
    let i = first_index(text, CharClass::Whitespace);
    let block = trimmed(text.skip(i + 1), CharClass::Whitespace);
    if text.len() == 0 || text[0] == '#' || i >= text.len() || block.len() == 0
        || !known_provider(text.take(i)) {
        None
    } else {
        Some((text.take(i), block))
    }
}

/// A table with one more range, given what its block is in either family. A block
/// that is in neither adds nothing.
pub open spec fn with_block(
    t: CdnView,
    provider: Seq<char>,
    v4: Option<(u32, u8)>,
    v6: Option<(u128, u8)>,
) -> CdnView {
    match v4 {
        Some(b) => CdnView { v4: t.v4.push((provider, b.0, b.1)), ..t },
        None => match v6 {
            Some(b) => CdnView { v6: t.v6.push((provider, b.0, b.1)), ..t },
            None => t,
        },
    }
}

/// The table that lines stand for.
pub open spec fn table_of(v: Seq<Seq<char>>) -> CdnView
    decreases v.len(),
{
    if v.len() == 0 {
        CdnView { v4: Seq::empty(), v6: Seq::empty() }
    } else {
        let t = table_of(v.drop_last());
        match line_parts(v.last()) {
            Some((provider, block)) => with_block(t, provider, v4_block(block), v6_block(block)),
            None => t,
        }
    }
}

fn intern(s: &[char]) -> (r: Option<&'static str>)
    ensures
        opt_literal(r) == (if known_provider(s@) {
            Some(s@)
        } else {
            None
        }),
{
    if is_text(s, "cloudflare") {
        Some("cloudflare")
    } else if is_text(s, "fastly") {
        Some("fastly")
    } else if is_text(s, "github_pages") {
        Some("github_pages")
    } else {
        None
    }
}

fn read_line(line: &[char]) -> (r: Option<(&'static str, String)>)
    ensures
        match r {
            Some(p) => line_parts(line@) == Some((p.0@, p.1@)),
            None => line_parts(line@) is None,
        },
{
    let text = trim(line, CharClass::Whitespace);
    let n: usize = text.len();
    if n == 0 || text[0] == '#' {
        return None;
    }
    match find(text, CharClass::Whitespace) {
        None => None,
        Some(i) => {
            let name = slice_subrange(text, 0, i);
            let rest = slice_subrange(text, i + 1, n);
            assert(name@ =~= text@.take(i as int));
            assert(rest@ =~= text@.skip(i + 1));
            let block = trim(rest, CharClass::Whitespace);
            if block.len() == 0 {
                return None;
            }
            match intern(name) {
                Some(provider) => Some((provider, string_of(block))),
                None => None,
            }
        },
    }
}

impl CdnTable {
    /// Adds a range, given what its block is in either family.
    pub fn add_block(
        &mut self,
        provider: &'static str,
        v4: Option<(u32, u8)>,
        v6: Option<(u128, u8)>,
    )
        ensures
            final(self)@ == with_block(old(self)@, provider@, v4, v6),
    {
        match v4 {
            Some(b) => {
                self.v4.push(V4Range { provider, addr: b.0, prefix: b.1 });
                assert(self@.v4 =~= old(self)@.v4.push((provider@, b.0, b.1)));
            },
            None => {
                if let Some(b) = v6 {
                    self.v6.push(V6Range { provider, addr: b.0, prefix: b.1 });
                    assert(self@.v6 =~= old(self)@.v6.push((provider@, b.0, b.1)));
                }
            },
        }
    }
}

/// Reads a table: one provider and one CIDR block per line. Malformed lines are
/// skipped.
pub fn parse_table(raw: &str) -> (r: CdnTable)
    ensures
        r@ == table_of(lines(raw@)),
        r@.wf(),
{
    let parts = lines_of(chars_of(raw).as_slice());
    let ghost all = lines(raw@);
    let mut t = CdnTable { v4: Vec::new(), v6: Vec::new() };
    assert(t@.v4 =~= Seq::empty() && t@.v6 =~= Seq::empty());
    assert(all.take(0) =~= Seq::empty());
    let mut i: usize = 0;
    while i < parts.len()
        invariant
            i <= parts@.len(),
            all == char_texts(parts@),
            t@ == table_of(all.take(i as int)),
            t@.wf(),
        decreases parts.len() - i,
    {
        assert(all.take(i + 1).drop_last() =~= all.take(i as int));
        assert(all.take(i + 1).last() == parts@[i as int]@);
        if let Some((provider, block)) = read_line(parts[i].as_slice()) {
            let v4 = read_v4_block(block.as_str());
            let v6 = read_v6_block(block.as_str());
            t.add_block(provider, v4, v6);
        }
        i += 1;
    }
    assert(all.take(i as int) =~= all);
    t
}

// ---------------------------------------------------------------------------
// Lookup

/// The provider of the first IPv4 range at or after `i` that holds an address.
pub open spec fn v4_provider(v: Seq<(Seq<char>, u32, u8)>, ip: u32, i: int) -> Option<Seq<char>>
    decreases v.len() - i,
{
    if i < 0 || i >= v.len() {
        None
    } else if same_prefix(v[i].1 as nat, ip as nat, 32, v[i].2 as nat) {
        Some(v[i].0)
    } else {
        v4_provider(v, ip, i + 1)
    }
}

/// The provider of the first IPv6 range at or after `i` that holds an address.
pub open spec fn v6_provider(v: Seq<(Seq<char>, u128, u8)>, ip: u128, i: int) -> Option<Seq<char>>
    decreases v.len() - i,
{
    if i < 0 || i >= v.len() {
        None
    } else if same_prefix(v[i].1 as nat, ip as nat, 128, v[i].2 as nat) {
        Some(v[i].0)
    } else {
        v6_provider(v, ip, i + 1)
    }
}

/// The provider of an address.
pub open spec fn provider_of(t: CdnView, ip: IpAddr) -> Option<Seq<char>> {
    match ip {
        IpAddr::V4(a) => v4_provider(t.v4, a, 0),
        IpAddr::V6(a) => v6_provider(t.v6, a, 0),
    }
}

/// Looks up the CDN provider of an address.
pub fn lookup(table: &CdnTable, ip: IpAddr) -> (r: Option<&'static str>)
    requires
        table@.wf(),
    ensures
        opt_literal(r) == provider_of(table@, ip),
{
    match ip {
        IpAddr::V4(a) => {
            let ghost v = table@.v4;
            let mut i: usize = 0;
            while i < table.v4.len()
                invariant
                    i <= table.v4@.len(),
                    ip == IpAddr::V4(a),
                    v == v4_views(table.v4@),
                    forall|i: int| 0 <= i < v.len() ==> (#[trigger] v[i]).2 <= 32,
                    v4_provider(v, a, 0) == v4_provider(v, a, i as int),
                decreases table.v4.len() - i,
            {
                let range = &table.v4[i];
                assert(v[i as int] == (range.provider@, range.addr, range.prefix));
                if v4_contains(range.addr, range.prefix, a) {
                    return Some(range.provider);
                }
                i += 1;
            }
            None
        },
        IpAddr::V6(a) => {
            let ghost v = table@.v6;
            let mut i: usize = 0;
            while i < table.v6.len()
                invariant
                    i <= table.v6@.len(),
                    ip == IpAddr::V6(a),
                    v == v6_views(table.v6@),
                    forall|i: int| 0 <= i < v.len() ==> (#[trigger] v[i]).2 <= 128,
                    v6_provider(v, a, 0) == v6_provider(v, a, i as int),
                decreases table.v6.len() - i,
            {
                let range = &table.v6[i];
                assert(v[i as int] == (range.provider@, range.addr, range.prefix));
                if v6_contains(range.addr, range.prefix, a) {
                    return Some(range.provider);
                }
                i += 1;
            }
            None
        },
    }
}

/// The provider that every one of some addresses has, if there are any.
pub open spec fn common_provider(t: CdnView, ips: Seq<IpAddr>) -> Option<Seq<char>> {
    if ips.len() > 0 && forall|i: int|
        0 <= i < ips.len() ==> provider_of(t, #[trigger] ips[i]) == provider_of(t, ips[0]) {
        provider_of(t, ips[0])
    } else {
        None
    }
}

/// The provider that every one of some addresses has. There is none for an empty list,
/// for several providers, or where one address has no provider.
pub fn dominant_provider(table: &CdnTable, ips: &Vec<IpAddr>) -> (r: Option<&'static str>)
    requires
        table@.wf(),
    ensures
        opt_literal(r) == common_provider(table@, ips@),
{
    if ips.len() == 0 {
        return None;
    }
    let first = match lookup(table, ips[0]) {
        Some(p) => p,
        None => {
            return None;
        },
    };
    let mut i: usize = 1;
    while i < ips.len()
        invariant
            1 <= i <= ips@.len(),
            table@.wf(),
            provider_of(table@, ips@[0]) == Some(first@),
            forall|j: int|
                0 <= j < i ==> provider_of(table@, #[trigger] ips@[j]) == Some(first@),
        decreases ips.len() - i,
    {
        let same = match lookup(table, ips[i]) {
            Some(p) => same_str(p, first),
            None => false,
        };
        if !same {
            assert(provider_of(table@, ips@[i as int]) != provider_of(table@, ips@[0]));
            return None;
        }
        i += 1;
    }
    Some(first)
}

// ---------------------------------------------------------------------------
// CNAME targets

/// Whether a name is a zone or lies in it.
pub open spec fn in_zone(name: Seq<char>, zone: Seq<char>) -> bool {
    name == zone || (seq!['.'] + zone).is_suffix_of(name)
}

/// Tests whether a name is a zone or lies in it: `foo.akamai.net` is in `akamai.net`,
/// `notakamai.net` is not.
pub fn matches_zone_suffix(cname: &str, suffix: &str) -> (r: bool)
    ensures
        r == in_zone(cname@, suffix@),
{
    let name = chars_of(cname);
    let zone = chars_of(suffix);
    if same_text(name.as_slice(), zone.as_slice()) {
        return true;
    }
    let (n, m): (usize, usize) = (name.len(), zone.len());
    if n <= m {
        return false;
    }
    let ghost below = seq!['.'] + suffix@;
    let r = name[n - m - 1] == '.' && ends_with(name.as_slice(), zone.as_slice());
    proof {
        let tail = name@.subrange(n - m - 1, n as int);
        assert(zone@.is_suffix_of(name@) <==> name@.subrange(n - m, n as int) =~= zone@);
        if r {
            assert(tail =~= below);
        }
        if below.is_suffix_of(name@) {
            assert(tail =~= below);
            assert(tail[0] == '.');
            assert(name@.subrange(n - m, n as int) =~= tail.subrange(1, m + 1));
            assert(below.subrange(1, m + 1) =~= zone@);
        }
    }
    r
}

/// The zones of CNAME targets that identify a provider. Where zones overlap, the more
/// specific comes first.
pub open spec fn cname_zones() -> Seq<(Seq<char>, Seq<char>)> {
    seq![
        ("cdn.cloudflare.net"@, "cloudflare"@),
        ("akamaiedge.net"@, "akamai"@),
        ("akamaihd.net"@, "akamai"@),
        ("akamai.net"@, "akamai"@),
        ("edgekey.net"@, "akamai"@),
        ("edgesuite.net"@, "akamai"@),
        ("cloudfront.net"@, "cloudfront"@),
        ("fastlylb.net"@, "fastly"@),
        ("fastly.net"@, "fastly"@),
        ("azureedge.net"@, "azure"@),
        ("azurefd.net"@, "azure"@),
        ("vercel-dns.com"@, "vercel"@),
        ("vercel.app"@, "vercel"@),
        ("netlify.app"@, "netlify"@),
        ("netlifyglobalcdn.com"@, "netlify"@),
        ("herokuapp.com"@, "heroku"@),
        ("herokudns.com"@, "heroku"@),
        ("github.io"@, "github_pages"@),
    ]
}

fn cname_zone_list() -> (r: Vec<(&'static str, &'static str)>)
    ensures
        r@.map_values(|p: (&'static str, &'static str)| (p.0@, p.1@)) == cname_zones(),
{
    let r: Vec<(&'static str, &'static str)> = vec![
        ("cdn.cloudflare.net", "cloudflare"),
        ("akamaiedge.net", "akamai"),
        ("akamaihd.net", "akamai"),
        ("akamai.net", "akamai"),
        ("edgekey.net", "akamai"),
        ("edgesuite.net", "akamai"),
        ("cloudfront.net", "cloudfront"),
        ("fastlylb.net", "fastly"),
        ("fastly.net", "fastly"),
        ("azureedge.net", "azure"),
        ("azurefd.net", "azure"),
        ("vercel-dns.com", "vercel"),
        ("vercel.app", "vercel"),
        ("netlify.app", "netlify"),
        ("netlifyglobalcdn.com", "netlify"),
        ("herokuapp.com", "heroku"),
        ("herokudns.com", "heroku"),
        ("github.io", "github_pages"),
    ];
    assert(r@.map_values(|p: (&'static str, &'static str)| (p.0@, p.1@)) =~= cname_zones());
    r
}

/// The provider of the first zone at or after `i` that a name lies in.
pub open spec fn zone_provider(
    zones: Seq<(Seq<char>, Seq<char>)>,
    name: Seq<char>,
    i: int,
) -> Option<Seq<char>>
    decreases zones.len() - i,
{
    if i < 0 || i >= zones.len() {
        None
    } else if in_zone(name, zones[i].0) {
        Some(zones[i].1)
    } else {
        zone_provider(zones, name, i + 1)
    }
}

/// A name in lowercase, without surrounding whitespace and trailing dots.
pub open spec fn plain_name(s: Seq<char>) -> Seq<char> {
    lowered(without_trailing(trimmed(s, CharClass::Whitespace), CharClass::Is('.')))
}

/// Puts a name in lowercase, without surrounding whitespace and trailing dots.
pub fn normalize_cname(s: &str) -> (r: String)
    ensures
        r@ == plain_name(s@),
{
    let chars = chars_of(s);
    let cut = trim_end(trim(chars.as_slice(), CharClass::Whitespace), CharClass::Is('.'));
    string_of(to_lower(cut).as_slice())
}

/// The provider that the last name of a chain identifies.
pub open spec fn terminal_provider(cnames: Seq<Seq<char>>) -> Option<Seq<char>> {
    if cnames.len() == 0 || plain_name(cnames.last()).len() == 0 {
        None
    } else {
        zone_provider(cname_zones(), plain_name(cnames.last()), 0)
    }
}

/// Identifies a CDN from the last CNAME of a resolution chain.
pub fn lookup_cname_terminal(cnames: &Vec<String>) -> (r: Option<&'static str>)
    ensures
        opt_literal(r) == terminal_provider(texts(cnames@)),
{
    let n: usize = cnames.len();
    if n == 0 {
        return None;
    }
    assert(texts(cnames@).last() == cnames@[n - 1]@);
    let name = normalize_cname(cnames[n - 1].as_str());
    if name.as_str().is_empty() {
        return None;
    }
    let list = cname_zone_list();
    let ghost zones = cname_zones();
    let mut i: usize = 0;
    while i < list.len()
        invariant
            i <= list@.len(),
            zones == cname_zones(),
            texts(cnames@).len() > 0,
            name@ == plain_name(texts(cnames@).last()),
            name@.len() > 0,
            list@.map_values(|p: (&'static str, &'static str)| (p.0@, p.1@)) == zones,
            zone_provider(zones, name@, 0) == zone_provider(zones, name@, i as int),
        decreases list.len() - i,
    {
        let (zone, provider) = list[i];
        assert(zones[i as int] == (zone@, provider@));
        if matches_zone_suffix(name.as_str(), zone) {
            return Some(provider);
        }
        i += 1;
    }
    None
}

// ---------------------------------------------------------------------------
// Laws

/// Whether an address lies among those of a block: from the first one with the block's
/// leading bits on, as many as its other bits leave open.
pub open spec fn lies_among(addr: nat, bits: nat, prefix: nat, ip: nat) -> bool {
    let size = pow2((bits - prefix) as nat);
    let first = addr - addr % size;
    first <= ip < first + size
}

proof fn lemma_lies_among(addr: nat, bits: nat, prefix: nat, ip: nat)
    requires
        prefix <= bits,
    ensures
        lies_among(addr, bits, prefix, ip) <==> same_prefix(addr, ip, bits, prefix),
{
    let size = pow2((bits - prefix) as nat);
    vstd::arithmetic::power2::lemma_pow2_pos((bits - prefix) as nat);
    vstd::arithmetic::div_mod::lemma_fundamental_div_mod(addr as int, size as int);
    vstd::arithmetic::div_mod::lemma_fundamental_div_mod(ip as int, size as int);
    let (q, r) = (addr / size, ip / size);
    if q < r {
        assert(size * q + size <= size * r) by (nonlinear_arith)
            requires
                q + 1 <= r,
                size > 0,
        ;
    } else if r < q {
        assert(size * r + size <= size * q) by (nonlinear_arith)
            requires
                r + 1 <= q,
                size > 0,
        ;
    }
}

/// The provider of an address is that of the first range of its family that it lies in, and
/// an address in no range has none.
pub proof fn law_first_range_names_the_provider(t: CdnView, a: u32, b: u128)
    requires
        t.wf(),
    ensures
        provider_of(t, IpAddr::V4(a)) matches Some(p) ==> exists|i: int|
            0 <= i < t.v4.len() && (#[trigger] t.v4[i]).0 == p && lies_among(
                t.v4[i].1 as nat,
                32,
                t.v4[i].2 as nat,
                a as nat,
            ) && forall|j: int|
                0 <= j < i ==> !lies_among(
                    (#[trigger] t.v4[j]).1 as nat,
                    32,
                    t.v4[j].2 as nat,
                    a as nat,
                ),
        provider_of(t, IpAddr::V4(a)) is None <==> forall|j: int|
            0 <= j < t.v4.len() ==> !lies_among(
                (#[trigger] t.v4[j]).1 as nat,
                32,
                t.v4[j].2 as nat,
                a as nat,
            ),
        provider_of(t, IpAddr::V6(b)) matches Some(p) ==> exists|i: int|
            0 <= i < t.v6.len() && (#[trigger] t.v6[i]).0 == p && lies_among(
                t.v6[i].1 as nat,
                128,
                t.v6[i].2 as nat,
                b as nat,
            ) && forall|j: int|
                0 <= j < i ==> !lies_among(
                    (#[trigger] t.v6[j]).1 as nat,
                    128,
                    t.v6[j].2 as nat,
                    b as nat,
                ),
        provider_of(t, IpAddr::V6(b)) is None <==> forall|j: int|
            0 <= j < t.v6.len() ==> !lies_among(
                (#[trigger] t.v6[j]).1 as nat,
                128,
                t.v6[j].2 as nat,
                b as nat,
            ),
{
    assert forall|j: int| 0 <= j < t.v4.len() implies lies_among(
        (#[trigger] t.v4[j]).1 as nat,
        32,
        t.v4[j].2 as nat,
        a as nat,
    ) == same_prefix(t.v4[j].1 as nat, a as nat, 32, t.v4[j].2 as nat) by {
        lemma_lies_among(t.v4[j].1 as nat, 32, t.v4[j].2 as nat, a as nat);
    }
    assert forall|j: int| 0 <= j < t.v6.len() implies lies_among(
        (#[trigger] t.v6[j]).1 as nat,
        128,
        t.v6[j].2 as nat,
        b as nat,
    ) == same_prefix(t.v6[j].1 as nat, b as nat, 128, t.v6[j].2 as nat) by {
        lemma_lies_among(t.v6[j].1 as nat, 128, t.v6[j].2 as nat, b as nat);
    }
    lemma_v4_provider(t.v4, a, 0);
    lemma_v6_provider(t.v6, b, 0);
}

proof fn lemma_v4_provider(v: Seq<(Seq<char>, u32, u8)>, ip: u32, i: int)
    requires
        0 <= i <= v.len(),
    ensures
        v4_provider(v, ip, i) matches Some(p) ==> exists|k: int|
            i <= k < v.len() && (#[trigger] v[k]).0 == p && same_prefix(
                v[k].1 as nat,
                ip as nat,
                32,
                v[k].2 as nat,
            ) && forall|j: int|
                i <= j < k ==> !same_prefix(
                    (#[trigger] v[j]).1 as nat,
                    ip as nat,
                    32,
                    v[j].2 as nat,
                ),
        v4_provider(v, ip, i) is None <==> forall|j: int|
            i <= j < v.len() ==> !same_prefix(
                (#[trigger] v[j]).1 as nat,
                ip as nat,
                32,
                v[j].2 as nat,
            ),
    decreases v.len() - i,
{
    if i < v.len() {
        lemma_v4_provider(v, ip, i + 1);
        assert(v[i] == v[i]);
    }
}

proof fn lemma_v6_provider(v: Seq<(Seq<char>, u128, u8)>, ip: u128, i: int)
    requires
        0 <= i <= v.len(),
    ensures
        v6_provider(v, ip, i) matches Some(p) ==> exists|k: int|
            i <= k < v.len() && (#[trigger] v[k]).0 == p && same_prefix(
                v[k].1 as nat,
                ip as nat,
                128,
                v[k].2 as nat,
            ) && forall|j: int|
                i <= j < k ==> !same_prefix(
                    (#[trigger] v[j]).1 as nat,
                    ip as nat,
                    128,
                    v[j].2 as nat,
                ),
        v6_provider(v, ip, i) is None <==> forall|j: int|
            i <= j < v.len() ==> !same_prefix(
                (#[trigger] v[j]).1 as nat,
                ip as nat,
                128,
                v[j].2 as nat,
            ),
    decreases v.len() - i,
{
    if i < v.len() {
        lemma_v6_provider(v, ip, i + 1);
        assert(v[i] == v[i]);
    }
}

/// Several addresses have a provider in common exactly if there are any and each of them has
/// that provider.
pub proof fn law_all_addresses_have_the_common_provider(
    t: CdnView,
    ips: Seq<IpAddr>,
    p: Seq<char>,
)
    ensures
        common_provider(t, ips) == Some(p) <==> ips.len() > 0 && forall|ip: IpAddr|
            ips.contains(ip) ==> #[trigger] provider_of(t, ip) == Some(p),
{
    if common_provider(t, ips) == Some(p) {
        assert forall|ip: IpAddr| ips.contains(ip) implies #[trigger] provider_of(t, ip) == Some(
            p,
        ) by {
            let i = choose|i: int| 0 <= i < ips.len() && ips[i] == ip;
            assert(provider_of(t, ips[i]) == provider_of(t, ips[0]));
        }
    }
    if ips.len() > 0 && forall|ip: IpAddr|
        ips.contains(ip) ==> #[trigger] provider_of(t, ip) == Some(p) {
        assert forall|i: int| 0 <= i < ips.len() implies provider_of(t, #[trigger] ips[i]) == Some(
            p,
        ) by {
            assert(ips.contains(ips[i]));
        }
    }
}

/// A name lies in a zone exactly if it is the zone or ends with a dot and the zone: labels
/// before the zone do not matter, and a longer last label does.
pub proof fn law_zones_hold_whole_labels(x: Seq<char>, zone: Seq<char>)
    ensures
        in_zone(x + zone, zone) <==> x.len() == 0 || x.last() == '.',
{
    let name = x + zone;
    let below = seq!['.'] + zone;
    let n = name.len() as int;
    if x.len() == 0 {
        assert(name =~= zone);
    } else {
        let tail = name.subrange(n - below.len(), n);
        assert(tail[0] == x.last());
        if x.last() == '.' {
            assert(tail =~= below);
        }
        if below.is_suffix_of(name) {
            assert(below[0] == '.');
        }
    }
}

/// Only the last name of a chain identifies a provider, and it does exactly if it lies in one
/// of the known zones; the provider is that of such a zone.
pub proof fn law_last_name_identifies_the_provider(cnames: Seq<Seq<char>>, c: Seq<char>)
    ensures
        terminal_provider(cnames.push(c)) == terminal_provider(seq![c]),
        terminal_provider(Seq::empty()) is None,
        plain_name(c).len() > 0 ==> (terminal_provider(seq![c]) is Some <==> exists|i: int|
            0 <= i < cname_zones().len() && in_zone(plain_name(c), (#[trigger] cname_zones()[i]).0)),
        terminal_provider(seq![c]) matches Some(p) ==> exists|i: int|
            0 <= i < cname_zones().len() && in_zone(
                plain_name(c),
                (#[trigger] cname_zones()[i]).0,
            ) && cname_zones()[i].1 == p,
{
    assert(cnames.push(c).last() == c);
    assert(seq![c].last() == c);
    lemma_zone_provider(cname_zones(), plain_name(c), 0);
}

proof fn lemma_zone_provider(zones: Seq<(Seq<char>, Seq<char>)>, name: Seq<char>, i: int)
    requires
        0 <= i <= zones.len(),
    ensures
        zone_provider(zones, name, i) is Some <==> exists|k: int|
            i <= k < zones.len() && in_zone(name, (#[trigger] zones[k]).0),
        zone_provider(zones, name, i) matches Some(p) ==> exists|k: int|
            i <= k < zones.len() && in_zone(name, (#[trigger] zones[k]).0) && zones[k].1 == p,
    decreases zones.len() - i,
{
    if i < zones.len() {
        lemma_zone_provider(zones, name, i + 1);
        assert(zones[i] == zones[i]);
    }
}

/// A plain name has no capitals and no dot at its end, and neither capitals nor a dot at the
/// end of a name make a difference to it.
pub proof fn law_plain_names_are_equal_up_to_case_and_dot(s: Seq<char>)
    requires
        s.len() > 0,
        !CharClass::Whitespace.has(s[0]),
        !CharClass::Whitespace.has(s.last()),
    ensures
        crate::text::is_lower(plain_name(s)),
        plain_name(s).len() > 0 ==> plain_name(s).last() != '.',
        plain_name(s.push('.')) == plain_name(s),
        s.last() != '.' ==> plain_name(s) == lowered(s),
{
    let dot = CharClass::Is('.');
    let t = s.push('.');
    crate::text::lemma_unchanged_by_trim(s, CharClass::Whitespace);
    assert(t[0] == s[0] && t.last() == '.');
    crate::text::lemma_unchanged_by_trim(t, CharClass::Whitespace);
    lemma_same_end(s, '.', s.len() as int, dot);
    let e = crate::text::end_before(s, dot, s.len() as int);
    crate::text::lemma_end_before(s, dot, s.len() as int);
    assert(crate::text::end_before(t, dot, t.len() as int) == crate::text::end_before(
        t,
        dot,
        s.len() as int,
    ));
    assert(t.subrange(0, e) =~= s.subrange(0, e));
    let cut = without_trailing(s, dot);
    crate::text::lemma_lowered(cut);
    if cut.len() > 0 {
        assert(lowered(cut).last() == crate::text::ascii_lower(cut.last()));
        assert(cut.last() == s[e - 1]);
    }
    if s.last() != '.' {
        assert(cut =~= s);
    }
}

proof fn lemma_same_end(s: Seq<char>, c: char, i: int, k: CharClass)
    requires
        0 <= i <= s.len(),
    ensures
        crate::text::end_before(s.push(c), k, i) == crate::text::end_before(s, k, i),
    decreases i,
{
    if i > 0 {
        assert(s.push(c)[i - 1] == s[i - 1]);
        lemma_same_end(s, c, i - 1, k);
    }
}

/// A line of the table with a known provider, whitespace and a block stands for these, and a
/// blank line or a comment stands for nothing.
pub proof fn law_table_lines_are_read(p: Seq<char>, c: char, block: Seq<char>)
    requires
        p == "cloudflare"@ || p == "fastly"@ || p == "github_pages"@,
        CharClass::Whitespace.has(c),
        block.len() > 0,
        !CharClass::Whitespace.has(block[0]),
        !CharClass::Whitespace.has(block.last()),
    ensures
        line_parts(p + seq![c] + block) == Some((p, block)),
        line_parts(seq!['#'] + p + seq![c] + block) is None,
        line_parts(seq![c]) is None,
        line_parts(block) is Some ==> has_any(block, CharClass::Whitespace),
{
    reveal_strlit("cloudflare");
    reveal_strlit("fastly");
    reveal_strlit("github_pages");
    let k = CharClass::Whitespace;
    let t = p + seq![c] + block;
    let n = p.len() as int;
    assert forall|i: int| 0 <= i < n implies !k.has(#[trigger] t[i]) by {
        assert(t[i] == p[i]);
    }
    assert(t.last() == block.last());
    crate::text::lemma_unchanged_by_trim(t, k);
    crate::text::lemma_unchanged_by_trim(block, k);
    crate::text::lemma_index_is(t, k, 0, n);
    assert(t.take(n) =~= p);
    assert(t.skip(n + 1) =~= block);
    let u = seq!['#'] + p + seq![c] + block;
    assert(u[0] == '#' && u.last() == block.last());
    crate::text::lemma_unchanged_by_trim(u, k);
    crate::text::lemma_trimmed(seq![c], k);
    assert(crate::text::has_only(seq![c], k));
    crate::text::lemma_index_from(block, k, 0);
}

/// The known zones of CNAME targets, each with the provider that it belongs to.
pub proof fn law_known_zones()
    ensures
        ({
            let z = cname_zones();
            let named = |zone: Seq<char>, p: Seq<char>| z.contains((zone, p));
            &&& z.len() == 18
            &&& named("cdn.cloudflare.net"@, "cloudflare"@)
            &&& named("akamai.net"@, "akamai"@) && named("akamaiedge.net"@, "akamai"@) && named(
                "akamaihd.net"@,
                "akamai"@,
            ) && named("edgekey.net"@, "akamai"@) && named("edgesuite.net"@, "akamai"@)
            &&& named("cloudfront.net"@, "cloudfront"@)
            &&& named("fastly.net"@, "fastly"@) && named("fastlylb.net"@, "fastly"@)
            &&& named("azureedge.net"@, "azure"@) && named("azurefd.net"@, "azure"@)
            &&& named("vercel.app"@, "vercel"@) && named("vercel-dns.com"@, "vercel"@)
            &&& named("netlify.app"@, "netlify"@) && named("netlifyglobalcdn.com"@, "netlify"@)
            &&& named("herokuapp.com"@, "heroku"@) && named("herokudns.com"@, "heroku"@)
            &&& named("github.io"@, "github_pages"@)
        }),
{
    let z = cname_zones();
    assert(z[0].1 == "cloudflare"@ && z[1].1 == "akamai"@ && z[2].1 == "akamai"@ && z[3].1
        == "akamai"@ && z[4].1 == "akamai"@ && z[5].1 == "akamai"@);
    assert(z[6].1 == "cloudfront"@ && z[7].1 == "fastly"@ && z[8].1 == "fastly"@ && z[9].1
        == "azure"@ && z[10].1 == "azure"@ && z[11].1 == "vercel"@);
    assert(z[12].1 == "vercel"@ && z[13].1 == "netlify"@ && z[14].1 == "netlify"@ && z[15].1
        == "heroku"@ && z[16].1 == "heroku"@ && z[17].1 == "github_pages"@);
}

} // verus!

use assetcanon::cdn::{
    dominant_provider, lookup, lookup_cname_terminal, matches_zone_suffix, parse_table, CdnTable,
};
use assetcanon::ip::IpAddr;

/// The published ranges of the three providers.
const RANGES: &str = "\
# provider block\n\
cloudflare 173.245.48.0/20\n\
cloudflare 103.21.244.0/22\n\
cloudflare 103.22.200.0/22\n\
cloudflare 103.31.4.0/22\n\
cloudflare 141.101.64.0/18\n\
cloudflare 108.162.192.0/18\n\
cloudflare 190.93.240.0/20\n\
cloudflare 188.114.96.0/20\n\
cloudflare 197.234.240.0/22\n\
cloudflare 198.41.128.0/17\n\
cloudflare 162.158.0.0/15\n\
cloudflare 104.16.0.0/13\n\
cloudflare 104.24.0.0/14\n\
cloudflare 172.64.0.0/13\n\
cloudflare 131.0.72.0/22\n\
cloudflare 2400:cb00::/32\n\
cloudflare 2606:4700::/32\n\
cloudflare 2803:f800::/32\n\
cloudflare 2405:b500::/32\n\
cloudflare 2405:8100::/32\n\
cloudflare 2a06:98c0::/29\n\
cloudflare 2c0f:f248::/32\n\
fastly 23.235.32.0/20\n\
fastly 43.249.72.0/22\n\
fastly 103.244.50.0/24\n\
fastly 103.245.222.0/23\n\
fastly 103.245.224.0/24\n\
fastly 104.156.80.0/20\n\
fastly 140.248.64.0/18\n\
fastly 140.248.128.0/17\n\
fastly 146.75.0.0/17\n\
fastly 151.101.0.0/16\n\
fastly 157.52.64.0/18\n\
fastly 167.82.0.0/17\n\
fastly 167.82.128.0/20\n\
fastly 167.82.160.0/20\n\
fastly 167.82.224.0/20\n\
fastly 172.111.64.0/18\n\
fastly 185.31.16.0/22\n\
fastly 199.27.72.0/21\n\
fastly 199.232.0.0/16\n\
fastly 2a04:4e40::/32\n\
fastly 2a04:4e42::/32\n\
github_pages 185.199.108.0/22\n\
";

fn table() -> CdnTable {
    parse_table(RANGES)
}

fn ip(s: &str) -> IpAddr {
    IpAddr::parse(s).unwrap()
}

#[test]
fn bundled_table_parses_and_has_entries() {
    let t = table();
    assert!(t.v4.len() >= 30, "expected at least 30 v4 ranges");
    assert!(t.v6.len() >= 5, "expected at least 5 v6 ranges");
    for r in &t.v4 {
        assert!(!r.provider.is_empty(), "every v4 range has a provider");
    }
    for r in &t.v6 {
        assert!(!r.provider.is_empty(), "every v6 range has a provider");
    }
}

#[test]
fn cloudflare_v4_lookup() {
    assert_eq!(lookup(&table(), ip("104.16.1.1")), Some("cloudflare"));
}

#[test]
fn fastly_v4_lookup() {
    assert_eq!(lookup(&table(), ip("151.101.1.1")), Some("fastly"));
}

#[test]
fn github_pages_v4_lookup() {
    assert_eq!(lookup(&table(), ip("185.199.108.153")), Some("github_pages"));
}

#[test]
fn cloudflare_v6_lookup() {
    assert_eq!(lookup(&table(), ip("2606:4700::1")), Some("cloudflare"));
}

#[test]
fn non_cdn_returns_none() {
    assert_eq!(lookup(&table(), ip("8.8.8.8")), None);
}

#[test]
fn dominant_provider_all_cf() {
    let ips = vec![ip("104.16.1.1"), ip("172.64.1.1")];
    assert_eq!(dominant_provider(&table(), &ips), Some("cloudflare"));
}

#[test]
fn dominant_provider_mixed_returns_none() {
    let ips = vec![ip("104.16.1.1"), ip("151.101.1.1")];
    assert_eq!(dominant_provider(&table(), &ips), None);
}

#[test]
fn dominant_provider_with_non_cdn_returns_none() {
    let ips = vec![ip("104.16.1.1"), ip("8.8.8.8")];
    assert_eq!(dominant_provider(&table(), &ips), None);
}

#[test]
fn dominant_provider_empty_returns_none() {
    let ips: Vec<IpAddr> = Vec::new();
    assert_eq!(dominant_provider(&table(), &ips), None);
}

#[test]
fn cname_terminal_matches_akamai() {
    let chain: Vec<String> = vec!["foo.bar".into(), "e1234.dscb.akamaiedge.net".into()];
    assert_eq!(lookup_cname_terminal(&chain), Some("akamai"));
}

#[test]
fn cname_terminal_matches_cloudfront() {
    let chain: Vec<String> = vec!["d12345.cloudfront.net".into()];
    assert_eq!(lookup_cname_terminal(&chain), Some("cloudfront"));
}

#[test]
fn cname_terminal_matches_fastly() {
    let chain: Vec<String> = vec!["dualstack.somesite.map.fastly.net".into()];
    assert_eq!(lookup_cname_terminal(&chain), Some("fastly"));
}

#[test]
fn cname_terminal_matches_vercel() {
    let chain: Vec<String> = vec!["myapp.vercel.app".into()];
    assert_eq!(lookup_cname_terminal(&chain), Some("vercel"));
}

#[test]
fn cname_terminal_strips_trailing_dot_and_lowercases() {
    let chain: Vec<String> = vec!["E1234.AkamaiEdge.Net.".into()];
    assert_eq!(lookup_cname_terminal(&chain), Some("akamai"));
}

#[test]
fn cname_terminal_empty_chain_returns_none() {
    let chain: Vec<String> = Vec::new();
    assert_eq!(lookup_cname_terminal(&chain), None);
}

#[test]
fn cname_terminal_non_cdn_returns_none() {
    let chain: Vec<String> = vec!["legacy.example.com".into()];
    assert_eq!(lookup_cname_terminal(&chain), None);
}

#[test]
fn cname_suffix_zone_boundary_rejects_false_match() {
    assert!(!matches_zone_suffix("notakamai.net", "akamai.net"));
    assert!(matches_zone_suffix("foo.akamai.net", "akamai.net"));
    assert!(matches_zone_suffix("akamai.net", "akamai.net"));
}

#[test]
fn malformed_table_lines_are_skipped() {
    let t = parse_table("\n# comment\ncloudflare\ncloudflare 1.2.3.0/33\nother 1.2.3.0/24\n  fastly \t 10.0.0.0/8  \nfastly 2001:db8::/129\n");
    assert_eq!(t.v4.len(), 1);
    assert_eq!(t.v6.len(), 0);
    assert_eq!(t.v4[0].provider, "fastly");
    assert_eq!(t.v4[0].addr, 10 << 24);
    assert_eq!(t.v4[0].prefix, 8);
}

#[test]
fn range_borders_are_exact() {
    let t = parse_table("fastly 10.1.2.128/25\ncloudflare 0.0.0.0/0\ngithub_pages 2001:db8::/33\n");
    assert_eq!(lookup(&t, ip("10.1.2.128")), Some("fastly"));
    assert_eq!(lookup(&t, ip("10.1.2.255")), Some("fastly"));
    assert_eq!(lookup(&t, ip("10.1.2.127")), Some("cloudflare"));
    assert_eq!(lookup(&t, ip("2001:db8:7fff:ffff::1")), Some("github_pages"));
    assert_eq!(lookup(&t, ip("2001:db8:8000::")), None);
}

#[test]
fn more_specific_cname_zones_come_first() {
    let chain: Vec<String> = vec!["a.cdn.cloudflare.net".into()];
    assert_eq!(lookup_cname_terminal(&chain), Some("cloudflare"));
    let chain: Vec<String> = vec!["a.cdn.cloudflare.net".into(), ". ".into()];
    assert_eq!(lookup_cname_terminal(&chain), None);
}

use assetcanon::ip::{IpAddr, SocketAddr};
use assetcanon::model::AssetKind;
use assetcanon::normalize::{
    canonical_value, choose_form, complete, normalize, prepare, to_asset_skeleton, Normalized,
    Prepared,
};

#[test]
fn urls_lose_everything_but_host_port_and_scheme() {
    let n = normalize(" <HTTPS://user:pw@API.Example.com:8443/a?b#c> ");
    assert!(n.valid);
    assert_eq!(n.host, "api.example.com");
    assert_eq!(n.port, Some(8443));
    assert_eq!(n.scheme.as_deref(), Some("https"));
    assert_eq!(n.reason, None);
}

#[test]
fn default_ports_are_dropped() {
    assert_eq!(normalize("http://a.com:80").port, None);
    assert_eq!(normalize("https://a.com:443").port, None);
    assert_eq!(normalize("http://a.com:443").port, Some(443));
    assert_eq!(normalize("a.com:80").port, Some(80));
    assert_eq!(normalize("//a.com:80/x").scheme.as_deref(), Some("http"));
    assert_eq!(normalize("//a.com:80/x").port, None);
    assert_eq!(normalize("a.com:+81").port, Some(81));
    assert_eq!(normalize("http://a.com:").port, None);
}

#[test]
fn a_scheme_needs_its_slashes() {
    assert!(!normalize("a:/é").valid);
    assert_eq!(normalize("a:/é").reason, Some("invalid-port"));
    assert_eq!(normalize("h+2.x-1://b.com").scheme.as_deref(), Some("h+2.x-1"));
}

#[test]
fn hosts_are_folded() {
    assert_eq!(normalize("Example.COM..").host, "example.com");
    assert_eq!(normalize("*.Example.com.").host, "*.example.com");
    assert_eq!(normalize("*.10.0.0.1").host, "10.0.0.1");
    assert_eq!(normalize("BÜCHER.example").host, "xn--bcher-kva.example");
    assert_eq!(normalize("a_b.example.com").host, "a_b.example.com");
    assert_eq!(normalize("ex%ample.com").host, "ex%ample.com");
    assert_eq!(normalize("::FFFF:1.2.3.4").host, "::ffff:1.2.3.4");
    assert_eq!(normalize("2001:DB8:0:0:1:0:0:1").host, "2001:db8::1:0:0:1");
}

#[test]
fn invalid_inputs_carry_a_reason() {
    let n = Normalized::invalid("r".to_string(), "h".to_string(), "why");
    assert!(!n.valid);
    assert_eq!(n.reason, Some("why"));
    assert_eq!(n.port, None);
    let s = to_asset_skeleton(n);
    assert_eq!(s.kind, AssetKind::Garbage);
    assert_eq!(s.reason.as_deref(), Some("why"));
    assert_eq!(s.canonical, "h");
    let s = to_asset_skeleton(normalize("http://a.com:81"));
    assert_eq!(s.kind, AssetKind::Garbage);
    assert_eq!(s.reason, None);
    assert_eq!(s.canonical, "a.com");
    assert_eq!(s.port, Some(81));
}

#[test]
fn display_values_bracket_ipv6() {
    assert_eq!(canonical_value("a.com", None), "a.com");
    assert_eq!(canonical_value("a.com", Some(81)), "a.com:81");
    assert_eq!(canonical_value("::1", Some(81)), "[::1]:81");
    assert_eq!(canonical_value("*.a:b", Some(81)), "*.a:b:81");
    assert_eq!(canonical_value("::1", None), "::1");
}

#[test]
fn conversion_results_decide_the_domain() {
    let label = |s: &str| Some(s.to_string());
    assert_eq!(choose_form(label("ABC"), vec![None]).as_deref(), Some("abc"));
    assert_eq!(
        choose_form(None, vec![label("A"), label("b")]).as_deref(),
        Some("a.b")
    );
    assert_eq!(choose_form(None, vec![label("A"), None]), None);
    match prepare("*.Foo.com:81") {
        Prepared::Domain { body, wildcard, port, .. } => {
            assert_eq!(body, "Foo.com");
            assert!(wildcard);
            assert_eq!(port, Some(81));
        }
        Prepared::Done(_) => panic!("a domain is left to convert"),
    }
    assert_eq!(complete(prepare("*.Foo.com"), label("x.y")).host, "*.x.y");
    let n = complete(prepare("*.Foo.com"), None);
    assert_eq!(n.reason, Some("invalid-idna"));
    assert_eq!(n.host, "*.foo.com");
}

#[test]
fn addresses_are_read_and_written() {
    let both = |s: &str| IpAddr::parse(s).map(|ip| ip.to_text());
    assert_eq!(both("1.2.3.4").as_deref(), Some("1.2.3.4"));
    assert_eq!(both("0.0.0.0").as_deref(), Some("0.0.0.0"));
    assert_eq!(both("255.255.255.255").as_deref(), Some("255.255.255.255"));
    for bad in ["01.2.3.4", "256.1.1.1", "1.2.3", "1.2.3.4.5", "1.2.3.", "", "1.2.3.a", "1.2.3.1000"] {
        assert_eq!(both(bad), None, "{bad}");
    }
    assert_eq!(both("::").as_deref(), Some("::"));
    assert_eq!(both("::1").as_deref(), Some("::1"));
    assert_eq!(both("1::").as_deref(), Some("1::"));
    assert_eq!(both("1:2:3:4:5:6:7:8").as_deref(), Some("1:2:3:4:5:6:7:8"));
    assert_eq!(both("1:2:3:4:5:6:7::").as_deref(), Some("1:2:3:4:5:6:7:0"));
    assert_eq!(both("1:0:3:4:5:6:7:8").as_deref(), Some("1:0:3:4:5:6:7:8"));
    assert_eq!(both("1:0:0:4:0:0:0:8").as_deref(), Some("1:0:0:4::8"));
    assert_eq!(both("0:0:1:0:0:1:2:3").as_deref(), Some("::1:0:0:1:2:3"));
    assert_eq!(both("::ffff:1.2.3.4").as_deref(), Some("::ffff:1.2.3.4"));
    assert_eq!(both("::1.2.3.4").as_deref(), Some("::102:304"));
    assert_eq!(both("1:2:3:4:5:6:1.2.3.4").as_deref(), Some("1:2:3:4:5:6:102:304"));
    for bad in [
        ":::", "1:::2", "1::2::3", "1:2:3:4:5:6:7", "1:2:3:4:5:6:7:8:9", "12345::", ":1", "1:",
        "1:2:3:4:5:6:7:8::", "1.2.3.4::", "g::", "1:2:3:4:5:6:7:1.2.3.4",
    ] {
        assert_eq!(both(bad), None, "{bad}");
    }
}

#[test]
fn written_addresses_are_read_back() {
    let mut n: u128 = 1;
    for _ in 0..200 {
        n = n.wrapping_mul(0x9e3779b97f4a7c15f39cc0605cedc835).rotate_left(17) ^ 0xff;
        for v in [n, n & 0xffff_0000_0000_ffff_0000_0000_ffff_ffff, n & 0xffff, n << 96] {
            let ip = IpAddr::V6(v);
            assert_eq!(IpAddr::parse(&ip.to_text()), Some(ip));
        }
        let ip = IpAddr::V4(n as u32);
        assert_eq!(IpAddr::parse(&ip.to_text()), Some(ip));
    }
}

#[test]
fn socket_addresses_are_read_and_written() {
    let both = |s: &str| SocketAddr::parse(s).map(|a| a.to_text());
    assert_eq!(both("1.2.3.4:053").as_deref(), Some("1.2.3.4:53"));
    assert_eq!(both("[::1]:0").as_deref(), Some("[::1]:0"));
    assert_eq!(both("[fe80::1%5]:53").as_deref(), Some("[fe80::1%5]:53"));
    for bad in ["1.2.3.4", "1.2.3.4:", "1.2.3.4:65536", "1.2.3.4:+1", "::1:53", "[::1]", "[::1]53", "[1.2.3.4]:53", "[::1%]:53"] {
        assert_eq!(both(bad), None, "{bad}");
    }
}

#[test]
fn an_unbracketed_address_in_a_url_has_no_port() {
    let n = normalize("http://2001:DB8::1/x");
    assert!(n.valid);
    assert_eq!((n.host.as_str(), n.port), ("2001:db8::1", None));
    let n = normalize("https://[2001:db8::1]:8443/");
    assert_eq!((n.host.as_str(), n.port), ("2001:db8::1", Some(8443)));
}

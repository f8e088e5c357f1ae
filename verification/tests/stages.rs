use assetcanon::classify::classify_str;
use assetcanon::dedupe::{dedupe, host_without_port, is_covered_by_wildcard};
use assetcanon::extract;
use assetcanon::extract::{from_matches, from_strings, Json, Span};
use assetcanon::ip::IpAddr;
use assetcanon::model::{Asset, AssetKind, DnsStatus, ScopeStatus};
use assetcanon::pipeline::{
    apply_scope, assemble, canonicalize, cut_text, extract_candidates, extract_text, keep_kinds,
    unite_lists, InputFormat, SearchOptions,
};
use assetcanon::psl::SuffixList;
use assetcanon::scope::{rule_from_asset, RuleKind, ScopeMatcher};

const SUFFIXES: &str = "\
// ===BEGIN ICANN DOMAINS===\n\
com\n\
org\n\
net\n\
nl\n\
uk\n\
co.uk\n\
*.ck\n\
!www.ck\n\
// ===END ICANN DOMAINS===\n";

fn list() -> SuffixList {
    SuffixList::parse(SUFFIXES).unwrap()
}

fn classified(raw: &str) -> Asset {
    classify_str(raw, &list())
}

fn strings(v: &[&str]) -> Vec<String> {
    v.iter().map(|s| s.to_string()).collect()
}

fn matcher(rules: &[&str]) -> ScopeMatcher {
    ScopeMatcher::compile(&strings(rules), &list())
}

fn run_pipeline(text: &str) -> Vec<Asset> {
    let cands = extract::from_text(text);
    let assets: Vec<Asset> = cands.iter().map(|s| classified(s)).collect();
    let assets: Vec<Asset> = assets
        .into_iter()
        .filter(|a| a.kind != AssetKind::Garbage)
        .collect();
    dedupe(assets)
}

// Extraction

#[test]
fn text_avoids_email_domains() {
    let out = extract::from_text("send to foo@example.com and visit http://bar.com");
    assert!(out.iter().any(|v| v.starts_with("http://bar.com")));
    assert!(!out.iter().any(|v| v == "example.com"));
}

#[test]
fn text_picks_up_ipv4_and_ipv6() {
    let out = extract::from_text("server 10.0.0.1 or [2001:db8::1]:8080");
    assert!(out.iter().any(|v| v.contains("10.0.0.1")));
    assert!(out.iter().any(|v| v.contains("2001:db8::1")));
}

#[test]
fn san_parses_dns_prefix() {
    let out = extract::from_san(&strings(&["DNS:foo.com, DNS:bar.com"]));
    assert!(out.iter().any(|v| v == "foo.com"));
    assert!(out.iter().any(|v| v == "bar.com"));
}

#[test]
fn san_lines_are_split_and_unlabelled() {
    let out = extract::from_san(&strings(&[" dns:a.com,,DNS:dns:b.com\tDNS: a.com", "c.com"]));
    assert_eq!(out, strings(&["a.com", "b.com", "c.com"]));
}

#[test]
fn texts_are_searched_one_by_one() {
    let out = extract::from_texts(&strings(&["a.com b.com", "", "b.com b.com"]));
    assert_eq!(out, vec![strings(&["a.com", "b.com"]), Vec::new(), strings(&["b.com"])]);
    assert_eq!(
        extract::names_in_line("DNS:a.com, dns: DNS:b"),
        strings(&["a.com", "b"])
    );
}

#[test]
fn text_is_searched_pattern_by_pattern() {
    let out = extract::from_text("see (b.com), 1.2.3.4:80; [::1]:443 http://x.com/a. b.com");
    assert_eq!(
        out,
        strings(&["http://x.com/a.", "[::1]:443", "1.2.3.4:80", "b.com"])
    );
}

#[test]
fn matches_that_overlap_earlier_ones_are_left_out() {
    let span = |start: usize, text: &str| Span {
        start,
        end: start + text.len(),
        text: text.to_string(),
    };
    let urls = vec![span(10, "'//a.com,'"), span(40, "//a.com")];
    let first = vec![
        Some(span(0, "x.com")),
        None,
        Some(span(12, "a.com")),
        Some(span(60, "..y...")),
        Some(span(80, "x.com..")),
        Some(span(90, "q.com....")),
    ];
    let second = vec![Some(span(4, "m.com")), Some(span(30, "--")), Some(span(70, "y"))];
    assert_eq!(
        from_matches(&urls, &vec![&first, &second]),
        strings(&["//a.com", "x.com", "y.", "x.com.", "q.com.", "y"])
    );
}

#[test]
fn url_lines_are_cleaned_and_unique() {
    let out = extract::from_urls(&strings(&[" \"http://a.com\", ", "", "b.com", "b.com;"]));
    assert_eq!(out, strings(&["http://a.com", "b.com"]));
}

#[test]
fn json_strings_are_walked_in_order() {
    let text = r#"[{"b": "b.com", "a": ["a.com", 1, null, {"z": "//u.com/x y"}]}, "b.com"]"#;
    assert_eq!(
        extract::from_json(text, &Vec::new()),
        strings(&["a.com", "//u.com/x y", "b.com"])
    );
    assert_eq!(
        extract::from_json(text, &strings(&["b", "missing", "a"])),
        strings(&["b.com"])
    );
}

#[test]
fn json_lines_are_read_one_by_one() {
    let text = "{\"h\": \"a.com\"}\nnot json\n\n {\"h\": \"b.com\"} \n[\"c.com\"]\n";
    assert_eq!(
        extract::from_json(text, &Vec::new()),
        strings(&["a.com", "b.com", "c.com"])
    );
    assert_eq!(
        extract::from_json(text, &strings(&["h"])),
        strings(&["a.com", "b.com"])
    );
    assert!(extract::from_json("  ", &Vec::new()).is_empty());
    let text = |s: &str| Json::Text(s.to_string());
    let list = Json::List(vec![text("x"), Json::Other, text("y")]);
    let value = Json::Object(vec![("k".to_string(), list), ("l".to_string(), text("z"))]);
    assert_eq!(extract::walk(&value, &Vec::new()), strings(&["x", "y", "z"]));
    assert_eq!(extract::walk(&value, &strings(&["k", "l"])), strings(&["z"]));
    assert_eq!(
        from_strings(&strings(&["https://q.com/a", "see q.com", "q.com"])),
        strings(&["https://q.com/a", "q.com"])
    );
}

// Deduplication

#[test]
fn wildcard_covers_subdomain() {
    assert!(is_covered_by_wildcard("api.example.com", "*.example.com"));
    assert!(!is_covered_by_wildcard("example.com", "*.example.com"));
}

#[test]
fn coverage_ignores_case_and_edge_dots() {
    assert!(is_covered_by_wildcard("API.Example.com.", ".*.EXAMPLE.com"));
    assert!(!is_covered_by_wildcard("notexample.com", "*.example.com"));
    assert!(!is_covered_by_wildcard("api.example.com", "example.com"));
}

#[test]
fn dedupe_merges_and_marks_coverage() {
    let records = vec![
        classified("api.example.com"),
        classified("*.example.com"),
        classified("api.example.com"),
    ];
    let out = dedupe(records);
    assert_eq!(out.len(), 2);
    let api = out
        .iter()
        .find(|a| a.kind == AssetKind::Subdomain)
        .unwrap();
    assert!(!api.covered_by.is_empty());
}

#[test]
fn merged_records_unite_what_they_know() {
    let mut first = classified("api.example.com");
    first.covered_by = strings(&["z"]);
    first.ips = vec![IpAddr::V4(1)];
    let mut second = classified("https://api.example.com");
    second.covered_by = strings(&["a", "z"]);
    second.ips = vec![IpAddr::V4(2), IpAddr::V4(1)];
    second.cnames = strings(&["c.net"]);
    let out = dedupe(vec![first, second, classified("foo.org")]);
    assert_eq!(out.len(), 2);
    assert_eq!(out[0].scheme.as_deref(), Some("https"));
    assert_eq!(out[0].covered_by, strings(&["a", "z"]));
    assert_eq!(out[0].ips, vec![IpAddr::V4(1), IpAddr::V4(2)]);
    assert_eq!(out[0].cnames, strings(&["c.net"]));
    assert_eq!(out[1].canonical, "foo.org");
}

#[test]
fn coverage_lists_sorted_keys() {
    let out = dedupe(vec![
        classified("x.y.example.com:8443"),
        classified("*.y.example.com"),
        classified("*.example.com"),
        classified("*.example.org"),
        classified("example.com"),
    ]);
    assert_eq!(
        out[0].covered_by,
        strings(&["wildcard:*.example.com", "wildcard:*.y.example.com"])
    );
    assert!(out[4].covered_by.is_empty());
    let again = dedupe(out.iter().map(|a| a.duplicate()).collect());
    assert_eq!(again.len(), out.len());
    assert_eq!(again[0].covered_by, out[0].covered_by);
}

#[test]
fn ports_are_stripped() {
    assert_eq!(host_without_port(&classified("a.example.com:81")), "a.example.com");
    assert_eq!(host_without_port(&classified("[::1]:81")), "::1");
    assert_eq!(host_without_port(&classified("10.0.0.1:81")), "10.0.0.1");
    assert_eq!(host_without_port(&classified("::1")), "::1");
}

// Scope

#[test]
fn strict_subdomain_rule_is_exact() {
    let m = matcher(&["api.example.com"]);
    assert!(m.is_in_scope(&classified("api.example.com"), true));
    assert!(!m.is_in_scope(&classified("foo.api.example.com"), true));
    assert!(m.is_in_scope(&classified("foo.api.example.com"), false));
}

#[test]
fn wildcard_rule_covers_subs_strictly() {
    let m = matcher(&["*.example.com"]);
    assert!(m.is_in_scope(&classified("foo.example.com"), true));
    assert!(!m.is_in_scope(&classified("example.com"), true));
}

#[test]
fn rules_match_by_kind() {
    let m = matcher(&["# comment", "", " 10.0.0.1 ", "https://foo.org/x", "*.example.com", "not a rule"]);
    assert_eq!(m.matches(&classified("10.0.0.1:80"), true), strings(&["10.0.0.1"]));
    assert_eq!(m.matches(&classified("foo.org"), true), strings(&["https://foo.org/x"]));
    assert_eq!(m.matches(&classified("*.example.com"), true), strings(&["*.example.com"]));
    assert_eq!(m.matches(&classified("*.foo.example.com"), true), Vec::<String>::new());
    assert_eq!(m.matches(&classified("a.foo.org"), false), strings(&["https://foo.org/x"]));
    assert!(m.matches(&classified("a.foo.org"), true).is_empty());
    assert!(m.matches(&classified("not a host"), false).is_empty());
    let m = matcher(&["*.example.com", "b.example.com", "example.com", "example.com"]);
    let mut hits = m.matches(&classified("a.b.example.com"), false);
    hits.sort();
    assert_eq!(hits, strings(&["*.example.com", "b.example.com", "example.com"]));
}

#[test]
fn ports_count_only_on_request() {
    let rules = strings(&["api.example.com:8443", "*.example.com:9000"]);
    let by_host = ScopeMatcher::compile_with_options(&rules, &list(), false);
    let by_port = ScopeMatcher::compile_with_options(&rules, &list(), true);
    assert!(by_host.is_in_scope(&classified("api.example.com"), true));
    assert!(!by_port.is_in_scope(&classified("api.example.com"), true));
    assert!(by_port.is_in_scope(&classified("api.example.com:8443"), true));
    assert!(by_port.is_in_scope(&classified("x.example.com:9000"), true));
    assert!(!by_port.is_in_scope(&classified("x.example.com:9001"), true));
}

#[test]
fn rules_come_from_assets() {
    let rule = rule_from_asset("http://a.b.com:81", &classified("http://a.b.com:81"), false).unwrap();
    assert_eq!(rule.kind, RuleKind::Url);
    assert_eq!(rule.canonical, "a.b.com");
    let rule = rule_from_asset("a.b.com:81", &classified("a.b.com:81"), true).unwrap();
    assert_eq!(rule.kind, RuleKind::Subdomain);
    assert_eq!(rule.canonical, "a.b.com:81");
    assert!(rule_from_asset("x", &classified("x"), false).is_none());
}

#[test]
fn scope_filter_marks_and_keeps() {
    let m = matcher(&["*.example.com"]);
    let assets = || vec![classified("a.example.com"), classified("foo.org")];
    let inside = apply_scope(assets(), &m, true, false);
    assert_eq!(inside.len(), 1);
    assert_eq!(inside[0].asset.canonical, "a.example.com");
    assert_eq!(inside[0].asset.scope, ScopeStatus::InScope);
    assert_eq!(inside[0].rules, strings(&["*.example.com"]));
    let outside = apply_scope(assets(), &m, true, true);
    assert_eq!(outside.len(), 1);
    assert_eq!(outside[0].asset.canonical, "foo.org");
    assert_eq!(outside[0].asset.scope, ScopeStatus::OutOfScope);
    assert!(outside[0].rules.is_empty());
}

// Pipeline

#[test]
fn multi_line_hosts_are_all_extracted() {
    let input = "example.com\napi.example.com\n1.1.1.1\n*.cdn.example.com\n[2001:db8::1]:443\n";
    let out = run_pipeline(input);
    let canonicals: Vec<&str> = out.iter().map(|a| a.canonical.as_str()).collect();
    assert!(canonicals.contains(&"example.com"));
    assert!(canonicals.contains(&"api.example.com"));
    assert!(canonicals.contains(&"1.1.1.1"));
    assert!(canonicals.contains(&"*.cdn.example.com"));
    assert!(canonicals.contains(&"[2001:db8::1]:443"));
    assert!(!canonicals.contains(&"2001:db8::1"));
}

#[test]
fn dedupe_collapses_equivalent_inputs() {
    let input = "https://api.example.com/foo\napi.example.com\nhttp://api.example.com\n";
    let out = run_pipeline(input);
    assert_eq!(out.len(), 1);
    assert_eq!(out[0].canonical, "api.example.com");
}

#[test]
fn email_local_parts_are_not_mistaken_for_hosts() {
    let input = "contact foo@bar.com then visit https://baz.com";
    let out = run_pipeline(input);
    let canonicals: Vec<&str> = out.iter().map(|a| a.canonical.as_str()).collect();
    assert!(canonicals.contains(&"baz.com"));
    assert!(!canonicals.iter().any(|v| *v == "bar.com"));
}

#[test]
fn scope_matcher_roundtrip() {
    let matcher = matcher(&["*.example.com", "foo.org"]);
    let assets = [
        classified("api.example.com"),
        classified("deep.api.example.com"),
        classified("bar.foo.org"),
        classified("out.of.scope.net"),
    ];
    let in_scope: Vec<&str> = assets
        .iter()
        .filter(|a| matcher.is_in_scope(a, false))
        .map(|a| a.canonical.as_str())
        .collect();
    assert_eq!(
        in_scope,
        vec!["api.example.com", "deep.api.example.com", "bar.foo.org"]
    );
}

#[test]
fn dns_status_default_is_unknown() {
    let a = classified("example.com");
    assert_eq!(a.dns, DnsStatus::Unknown);
}

#[test]
fn wildcard_coverage_is_annotated() {
    let input = "api.example.com\n*.example.com\n";
    let out = run_pipeline(input);
    let api = out
        .iter()
        .find(|a| a.kind == AssetKind::Subdomain)
        .expect("subdomain in output");
    assert!(!api.covered_by.is_empty(), "api.example.com should be covered by *.example.com");
}

fn search(format: InputFormat) -> SearchOptions {
    SearchOptions { format, json_fields: Vec::new(), threads: 0, chunk_size: 4096 }
}

#[test]
fn every_format_goes_through_the_stages() {
    let run = |input: &str, format: InputFormat| -> Vec<String> {
        canonicalize(&strings(&[input]), &search(format), false, false, &list())
            .iter()
            .map(|a| a.canonical.clone())
            .collect()
    };
    assert_eq!(run("x A.com y a.com.", InputFormat::Text), strings(&["a.com"]));
    assert_eq!(run("http://b.com/1\nb.com\nrubbish\n", InputFormat::Urls), strings(&["b.com"]));
    assert_eq!(run("{\"a\":\"c.com\"}", InputFormat::Json), strings(&["c.com"]));
    assert_eq!(run("DNS:d.com\r\nDNS:e.com", InputFormat::San), strings(&["d.com", "e.com"]));
    let both = canonicalize(
        &strings(&["rubbish", "a.com\na.com:81"]),
        &search(InputFormat::Urls),
        true,
        true,
        &list(),
    );
    assert_eq!(both.len(), 3);
    let two = extract_candidates(&strings(&["a.com b.com", "b.com c.com"]), &search(InputFormat::Text));
    assert_eq!(two, strings(&["a.com", "b.com", "c.com"]));
}

#[test]
fn kinds_are_kept_in_order() {
    let assets = assemble(
        vec![classified("b.com"), classified("rubbish"), classified("a.b.com"), classified("1.1.1.1")],
        false,
        false,
    );
    assert_eq!(assets.len(), 3);
    let kept = keep_kinds(assets, &vec![AssetKind::Ip, AssetKind::Apex]);
    let names: Vec<&str> = kept.iter().map(|a| a.canonical.as_str()).collect();
    assert_eq!(names, vec!["b.com", "1.1.1.1"]);
}

#[test]
fn cutting_text_loses_nothing() {
    let mut text = String::new();
    for i in 0..30_000 {
        text.push_str(&format!("host{i}.example.com\n"));
    }
    text.push_str("last.example.com");
    let chunks = cut_text(&text, 4, 1);
    assert_eq!(chunks.len(), 30_001 / 256 + 1);
    assert_eq!(chunks.concat(), text);
    assert!(chunks[0].ends_with('\n'));
    assert_eq!(chunks[0].lines().count(), 256);
    assert_eq!(cut_text(&text, 1, 1), vec![text.clone()]);
    assert_eq!(cut_text("a\nb", 4, 1), strings(&["a\nb"]));
}

#[test]
fn pieces_are_searched_and_united() {
    assert_eq!(extract_text("a.com b.com", 2, 256), strings(&["a.com", "b.com"]));
    let parts = vec![strings(&["x", "y"]), strings(&["y", "z"])];
    assert_eq!(unite_lists(&parts), strings(&["x", "y", "z"]));
}

#[test]
fn json_lines_and_a_list_give_the_same() {
    let lines = ["{\"h\": \"b.com\"}", "{\"h\": \"a.com\", \"i\": \"b.com\"}"];
    for n in 1..=lines.len() {
        let stream = lines[..n].join("\n");
        let list = format!("[{}]", lines[..n].join(","));
        for fields in [Vec::new(), strings(&["h"])] {
            let found = extract::from_json(&list, &fields);
            assert!(found.len() >= n.min(2));
            assert_eq!(extract::from_json(&stream, &fields), found);
            assert_eq!(extract::from_json(&format!("{stream}\n"), &fields), found);
        }
    }
}

#[test]
fn json_objects_nested_too_deep_for_a_list() {
    let nested = |n: usize| format!("{}\"x.com\"{}", "{\"a\":".repeat(n), "}".repeat(n));
    let found = |text: &str| extract::from_json(text, &Vec::new());
    let (deep, deeper) = (nested(126), nested(127));
    assert_eq!(found(&deep), strings(&["x.com"]));
    assert_eq!(found(&format!("{deep}\n{deep}")), strings(&["x.com"]));
    assert_eq!(found(&format!("[{deep},{deep}]")), strings(&["x.com"]));
    assert_eq!(found(&deeper), strings(&["x.com"]));
    assert_eq!(found(&format!("{deeper}\n{deeper}")), strings(&["x.com"]));
    assert!(found(&format!("[{deeper},{deeper}]")).is_empty());
    let braces = format!("{{\"a\": \"b.com {} \\\" {}\"}}", "{".repeat(200), "[".repeat(200));
    assert_eq!(found(&format!("[{braces},{braces}]")), found(&format!("{braces}\n{braces}")));
    assert_eq!(found(&braces).len(), 1);
}

#[test]
fn line_feeds_part_every_pattern() {
    let lines = [
        "",
        "http://a.com/x",
        "see //b.org/y?z=1 http",
        "[2001:db8::1]:443",
        "x[::1]",
        "2001:db8::1",
        "fe80::1 ::",
        "1.2.3.4",
        "tail 1.2.3.4:80",
        "1.2.3.",
        "a.b.example.com.",
        "*.example.org:8080",
        "user@mail.example.com",
        "\u{fc}ml\u{e4}ut.example.de",
        "(c.net, d.net;",
        "-e.io\r",
        ".f.io",
        "_g.io:",
        "://h.io",
    ];
    let mut whole = Vec::new();
    let mut parts = Vec::new();
    for first in lines {
        for second in lines {
            for third in lines {
                let texts = strings(&[&format!("{first}\n"), &format!("{second}\n"), third]);
                whole.push(texts.concat());
                parts.extend(texts);
            }
        }
    }
    let in_whole = extract::from_texts(&whole);
    let in_parts = extract::from_texts(&parts);
    for (i, text) in whole.iter().enumerate() {
        let mut expected = in_whole[i].clone();
        let mut found = unite_lists(&in_parts[3 * i..3 * i + 3].to_vec());
        expected.sort();
        found.sort();
        assert_eq!(found, expected, "{text:?}");
    }
}

#[test]
fn threads_and_chunks_change_no_candidate() {
    let mut text = String::new();
    for i in 0..9000 {
        text.push_str(&format!("{i}.example.com\n*.w{i}.net:80 10.0.{}.{}\n", i / 250, i % 250));
    }
    let run = |threads: usize, chunk_size: usize| -> Vec<String> {
        let options =
            SearchOptions { format: InputFormat::Text, json_fields: Vec::new(), threads, chunk_size };
        let mut found = extract_candidates(&vec![text.clone()], &options);
        found.sort();
        found
    };
    let one = run(1, 1);
    assert_eq!(one.len(), 27_000);
    assert_eq!(run(2, 256), one);
    assert_eq!(run(8, 5000), one);
}

#[test]
fn candidates_are_pieces_of_the_text() {
    let text = "(see http://a.com/x), \u{fc}b.com;c.org.. [::1]:80 und 1.2.3.4:5";
    let found = extract::from_text(text);
    assert!(!found.is_empty());
    for c in &found {
        assert!(text.contains(c.as_str()), "{c}");
    }
}

#[test]
fn searching_in_pieces_finds_the_same() {
    let mut text = String::new();
    for i in 0..8000 {
        text.push_str(&format!("host{i}.example.com, see http://u{i}.org/a\n"));
    }
    let mut whole = extract::from_text(&text);
    let mut pieces = extract_text(&text, 4, 256);
    whole.sort();
    pieces.sort();
    assert_eq!(whole, pieces);
    assert_eq!(whole.len(), 16000);
    assert!(cut_text(&text, 4, 256).len() > 1);
}

#[test]
fn coverage_lists_every_wildcard_above() {
    let out = dedupe(
        ["a.b.example.com", "*.example.com", "*.b.example.com", "*.c.example.com", "1.2.3.4"]
            .iter()
            .map(|raw| classify_str(raw, &list()))
            .collect(),
    );
    assert_eq!(
        out[0].covered_by,
        strings(&["wildcard:*.b.example.com", "wildcard:*.example.com"])
    );
    for other in &out[1..] {
        assert!(other.covered_by.is_empty());
    }
}

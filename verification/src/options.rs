//! From options to configurations, and the reading of resolver lists.

use vstd::prelude::*;
use vstd::slice::slice_subrange;

use crate::dns::config::{public_resolvers, DnsConfig, Ratio};
use crate::dns::health::{default_domains, ResolverCheckConfig};
use crate::ip::{
    ip_value, law_addresses_are_read_back, law_socket_addresses_are_read_back, lemma_address_text,
    read_ip, read_socket, socket_value, SocketAddr,
};
use crate::lists::added;
use crate::text::{
    char_texts, chars_of, find, first_index, lines, lines_of, opt_text, pieces, split, string_of,
    texts, trim, trimmed, CharClass,
};

verus! {

/// The options of a validation run.
pub struct DnsOptions {
    /// Resolvers to use in place of the public ones.
    pub resolvers: Option<Vec<SocketAddr>>,
    pub fast: bool,
    pub strict: bool,
    pub concurrency: Option<usize>,
    pub timeout_secs: Option<u64>,
    pub retries: Option<u8>,
    pub wildcard_tests: Option<usize>,
    pub no_wildcard_filter: bool,
    pub consistency_checks: Option<usize>,
    pub probe_concurrency: Option<usize>,
    pub flaky_threshold: Option<Ratio>,
    pub flaky_min_samples: Option<usize>,
    pub no_skip_zones: bool,
    pub no_infer_wildcard_timeout: bool,
}

/// A configuration with more parallelism.
pub open spec fn made_fast(c: DnsConfig) -> DnsConfig {
    DnsConfig {
        concurrency: 200,
        timeout_secs: 3,
        wildcard_tests: 8,
        probe_concurrency: 100,
        flaky_min_samples: 8,
        ..c
    }
}

/// A configuration that only goes by what was observed.
pub open spec fn made_strict(c: DnsConfig) -> DnsConfig {
    DnsConfig {
        skip_dead_zones: false,
        flaky_min_samples: 0,
        infer_wildcard_on_timeout: false,
        ..c
    }
}

/// Raises parallelism.
pub fn apply_fast_dns_preset(cfg: &mut DnsConfig)
    ensures
        *final(cfg) == made_fast(*old(cfg)),
{
    cfg.concurrency = 200;
    cfg.timeout_secs = 3;
    cfg.wildcard_tests = 8;
    cfg.probe_concurrency = 100;
    cfg.flaky_min_samples = 8;
}

/// Disables inference and the short cuts for dead and flaky zones.
pub fn apply_strict_dns_preset(cfg: &mut DnsConfig)
    ensures
        *final(cfg) == made_strict(*old(cfg)),
{
    cfg.skip_dead_zones = false;
    cfg.flaky_min_samples = 0;
    cfg.infer_wildcard_on_timeout = false;
}

/// A number, but at least one.
pub open spec fn at_least_one(n: usize) -> usize {
    if n >= 1 {
        n
    } else {
        1
    }
}

fn or_at_least_one(n: usize) -> (r: usize)
    ensures
        r == at_least_one(n),
{
    if n >= 1 {
        n
    } else {
        1
    }
}

/// The configuration that presets and options make of another one. Single options win
/// over presets.
pub open spec fn configured(base: DnsConfig, o: DnsOptions) -> DnsConfig {
    let fast = if o.fast {
        made_fast(base)
    } else {
        base
    };
    let c = if o.strict {
        made_strict(fast)
    } else {
        fast
    };
    DnsConfig {
        concurrency: match o.concurrency {
            Some(n) => at_least_one(n),
            None => c.concurrency,
        },
        timeout_secs: match o.timeout_secs {
            Some(n) => if n >= 1 {
                n
            } else {
                1
            },
            None => c.timeout_secs,
        },
        retries: match o.retries {
            Some(n) => if n >= 1 {
                n
            } else {
                1
            },
            None => c.retries,
        },
        wildcard_tests: match o.wildcard_tests {
            Some(n) => at_least_one(n),
            None => c.wildcard_tests,
        },
        wildcard_filter: !o.no_wildcard_filter,
        consistency_checks: match o.consistency_checks {
            Some(n) => at_least_one(n),
            None => c.consistency_checks,
        },
        probe_concurrency: match o.probe_concurrency {
            Some(n) => n,
            None => c.probe_concurrency,
        },
        skip_dead_zones: c.skip_dead_zones && !o.no_skip_zones,
        flaky_threshold: match o.flaky_threshold {
            Some(t) if !o.no_skip_zones => t,
            _ => c.flaky_threshold,
        },
        flaky_min_samples: if o.no_skip_zones {
            0
        } else {
            match o.flaky_min_samples {
                Some(n) => n,
                None => c.flaky_min_samples,
            }
        },
        infer_wildcard_on_timeout: c.infer_wildcard_on_timeout && !o.no_infer_wildcard_timeout,
        ..c
    }
}

/// Whether a configuration is the default one, up to its resolvers.
pub open spec fn is_default_with(c: DnsConfig, resolvers: Seq<SocketAddr>) -> bool {
    c.resolvers@ == resolvers && c == (DnsConfig {
        resolvers: c.resolvers,
        concurrency: 50,
        timeout_secs: 5,
        retries: 2,
        wildcard_tests: 6,
        wildcard_filter: true,
        consistency_checks: 2,
        probe_concurrency: 25,
        skip_dead_zones: true,
        flaky_threshold: Ratio { num: 8, den: 10 },
        flaky_min_samples: 10,
        infer_wildcard_on_timeout: true,
        resolver_unhealthy_threshold: Ratio { num: 5, den: 10 },
        resolver_min_samples: 20,
        hijack_probe_interval_secs: 30,
    })
}

/// The resolvers that options ask for.
pub open spec fn chosen_resolvers(o: DnsOptions) -> Seq<SocketAddr> {
    match o.resolvers {
        Some(v) => v@,
        None => public_resolvers(),
    }
}

/// Builds the configuration of a validation run: the default one, changed by the presets
/// and then by the single options.
pub fn build_dns_config(options: DnsOptions) -> (r: DnsConfig)
    ensures
        exists|base: DnsConfig| #[trigger] is_default_with(base, chosen_resolvers(options)) && r
            == configured(base, options),
{
    let mut cfg = DnsConfig::default();
    if let Some(v) = options.resolvers {
        cfg.resolvers = v;
    }
    let ghost base = cfg;
    assert(is_default_with(base, chosen_resolvers(options)));
    if options.fast {
        apply_fast_dns_preset(&mut cfg);
    }
    if options.strict {
        apply_strict_dns_preset(&mut cfg);
    }
    if let Some(n) = options.concurrency {
        cfg.concurrency = or_at_least_one(n);
    }
    if let Some(n) = options.timeout_secs {
        cfg.timeout_secs = if n >= 1 {
            n
        } else {
            1
        };
    }
    if let Some(n) = options.retries {
        cfg.retries = if n >= 1 {
            n
        } else {
            1
        };
    }
    if let Some(n) = options.wildcard_tests {
        cfg.wildcard_tests = or_at_least_one(n);
    }
    cfg.wildcard_filter = !options.no_wildcard_filter;
    if let Some(n) = options.consistency_checks {
        cfg.consistency_checks = or_at_least_one(n);
    }
    if let Some(n) = options.probe_concurrency {
        cfg.probe_concurrency = n;
    }
    if options.no_skip_zones {
        cfg.skip_dead_zones = false;
        cfg.flaky_min_samples = 0;
    } else {
        if let Some(t) = options.flaky_threshold {
            cfg.flaky_threshold = t;
        }
        if let Some(n) = options.flaky_min_samples {
            cfg.flaky_min_samples = n;
        }
    }
    if options.no_infer_wildcard_timeout {
        cfg.infer_wildcard_on_timeout = false;
    }
    assert(cfg == configured(base, options));
    cfg
}

/// The threshold that a report on flaky zones names: the one given, or else the default.
pub fn flaky_threshold_for_report(given: Option<Ratio>) -> (r: Ratio)
    ensures
        r == (match given {
            Some(t) => t,
            None => Ratio { num: 8, den: 10 },
        }),
{
    match given {
        Some(t) => t,
        None => DnsConfig::default().flaky_threshold,
    }
}

/// Builds the configuration of a resolver check.
pub fn build_resolver_check_config(
    domains: Vec<String>,
    rounds: usize,
    concurrency: Option<usize>,
) -> (r: ResolverCheckConfig)
    ensures
        texts(r.positive_domains@) == (if domains@.len() == 0 {
            default_domains()
        } else {
            texts(domains@)
        }),
        r.rounds == at_least_one(rounds),
        r.concurrency == (match concurrency {
            Some(n) => n,
            None => 0,
        }),
{
    let mut cfg = ResolverCheckConfig::default();
    if domains.len() > 0 {
        cfg.positive_domains = domains;
    }
    cfg.rounds = or_at_least_one(rounds);
    cfg.concurrency = match concurrency {
        Some(n) => n,
        None => 0,
    };
    cfg
}

// ---------------------------------------------------------------------------
// Resolver lists

/// Why a text is no resolver.
#[derive(Debug, Clone, Copy, PartialEq, Eq, Structural)]
pub enum ResolverError {
    /// There is nothing.
    Empty,
    /// It is no `ip`, `ip:port` or `[ipv6]:port`.
    Malformed,
}

/// The message of an error.
pub fn resolver_error_text(e: ResolverError) -> (r: &'static str)
    ensures
        r@ == (match e {
            ResolverError::Empty => "empty resolver"@,
            ResolverError::Malformed => "expected ip, ip:port, or [ipv6]:port"@,
        }),
{
    match e {
        ResolverError::Empty => "empty resolver",
        ResolverError::Malformed => "expected ip, ip:port, or [ipv6]:port",
    }
}

/// The resolver that a text stands for; the port is 53 unless it is given.
pub open spec fn resolver_value(raw: Seq<char>) -> Result<SocketAddr, ResolverError> {
    let text = trimmed(raw, CharClass::Whitespace);
    if text.len() == 0 {
        Err(ResolverError::Empty)
    } else {
        match socket_value(text) {
            Some(a) => Ok(a),
            None => match ip_value(text) {
                Some(ip) => Ok(SocketAddr { ip, port: 53, scope: 0 }),
                None => Err(ResolverError::Malformed),
            },
        }
    }
}

/// Reads a resolver; the port is 53 unless it is given.
pub fn parse_resolver(raw: &str) -> (r: Result<SocketAddr, ResolverError>)
    ensures
        r == resolver_value(raw@),
{
    let chars = chars_of(raw);
    let text = trim(chars.as_slice(), CharClass::Whitespace);
    if text.len() == 0 {
        return Err(ResolverError::Empty);
    }
    if let Some(addr) = read_socket(text) {
        return Ok(addr);
    }
    match read_ip(text) {
        Some(ip) => Ok(SocketAddr::new(ip, 53)),
        None => Err(ResolverError::Malformed),
    }
}

/// A line without its comment and without surrounding whitespace.
pub open spec fn without_comment(line: Seq<char>) -> Seq<char> {
    trimmed(line.take(first_index(line, CharClass::Is('#'))), CharClass::Whitespace)
}

/// A line without its comment and without surrounding whitespace, unless nothing is left.
pub fn clean_resolver_line(line: &str) -> (r: Option<String>)
    ensures
        opt_text(r) == (if without_comment(line@).len() == 0 {
            None
        } else {
            Some(without_comment(line@))
        }),
{
    let chars = chars_of(line);
    let n: usize = chars.len();
    let end: usize = match find(chars.as_slice(), CharClass::Is('#')) {
        Some(i) => i,
        None => n,
    };
    let head = slice_subrange(chars.as_slice(), 0, end);
    assert(head@ =~= line@.take(end as int));
    let text = trim(head, CharClass::Whitespace);
    if text.len() == 0 {
        None
    } else {
        Some(string_of(text))
    }
}

/// Adds a resolver unless the list already holds it.
pub fn push_resolver_unique(resolvers: &mut Vec<SocketAddr>, resolver: SocketAddr)
    ensures
        final(resolvers)@ == added(old(resolvers)@, resolver),
{
    let mut i: usize = 0;
    while i < resolvers.len()
        invariant
            i <= resolvers@.len(),
            resolvers@ == old(resolvers)@,
            forall|j: int| 0 <= j < i ==> resolvers@[j] != resolver,
        decreases resolvers.len() - i,
    {
        if resolvers[i] == resolver {
            return;
        }
        i += 1;
    }
    resolvers.push(resolver);
}

/// An entry of a list that is no resolver: its number, counted from one, its text and
/// what is wrong with it.
#[derive(Debug, Clone)]
pub struct BadResolver {
    pub number: usize,
    pub text: String,
    pub error: ResolverError,
}

/// A list with the resolvers of entries added in turn, up to the first that is none:
/// then its place, counted from zero, its text and the error.
pub open spec fn with_entries(
    list: Seq<SocketAddr>,
    entries: Seq<Seq<char>>,
    n: int,
) -> Result<Seq<SocketAddr>, (int, Seq<char>, ResolverError)>
    decreases n,
{
    if n <= 0 || n > entries.len() {
        Ok(list)
    } else {
        match with_entries(list, entries, n - 1) {
            Err(e) => Err(e),
            Ok(before) => if entries[n - 1].len() == 0 {
                Ok(before)
            } else {
                match resolver_value(entries[n - 1]) {
                    Ok(a) => Ok(added(before, a)),
                    Err(e) => Err((n - 1, entries[n - 1], e)),
                }
            },
        }
    }
}

/// The entries of an inline list.
pub open spec fn inline_entries(text: Seq<char>) -> Seq<Seq<char>> {
    pieces(text, CharClass::Is(',')).map_values(|t: Seq<char>| trimmed(t, CharClass::Whitespace))
}

/// The entries of a resolver file.
pub open spec fn file_entries(text: Seq<char>) -> Seq<Seq<char>> {
    lines(text).map_values(|l: Seq<char>| without_comment(l))
}

proof fn lemma_first_bad_entry(list: Seq<SocketAddr>, entries: Seq<Seq<char>>, i: int, n: int)
    requires
        0 <= i <= n <= entries.len(),
        with_entries(list, entries, i) is Err,
    ensures
        with_entries(list, entries, n) == with_entries(list, entries, i),
    decreases n - i,
{
    if i < n {
        lemma_first_bad_entry(list, entries, i, n - 1);
    }
}

fn add_entries(list: &mut Vec<SocketAddr>, entries: &Vec<String>) -> (r: Result<(), BadResolver>)
    ensures
        match with_entries(old(list)@, texts(entries@), entries@.len() as int) {
            Ok(v) => r is Ok && final(list)@ == v,
            Err((place, text, error)) => r is Err && r->Err_0.number == place + 1
                && r->Err_0.text@ == text && r->Err_0.error == error,
        },
{
    let ghost all = texts(entries@);
    let n: usize = entries.len();
    let mut i: usize = 0;
    while i < n
        invariant
            n == entries@.len(),
            i <= n,
            all == texts(entries@),
            with_entries(old(list)@, all, i as int) == Ok::<_, (int, Seq<char>, ResolverError)>(
                list@,
            ),
        decreases n - i,
    {
        let entry = entries[i].as_str();
        assert(all[i as int] == entry@);
        if !entry.is_empty() {
            match parse_resolver(entry) {
                Ok(a) => push_resolver_unique(list, a),
                Err(error) => {
                    proof {
                        lemma_first_bad_entry(old(list)@, all, i + 1, n as int);
                    }
                    return Err(BadResolver { number: i + 1, text: entry.to_string(), error });
                },
            }
        }
        i += 1;
    }
    Ok(())
}

/// Adds the resolvers of a comma-separated list, each once. The first entry that is none
/// is reported.
pub fn add_inline_resolvers(list: &mut Vec<SocketAddr>, text: &str) -> (r: Result<
    (),
    BadResolver,
>)
    ensures
        match with_entries(
            old(list)@,
            inline_entries(text@),
            inline_entries(text@).len() as int,
        ) {
            Ok(v) => r is Ok && final(list)@ == v,
            Err((place, entry, error)) => r is Err && r->Err_0.number == place + 1
                && r->Err_0.text@ == entry && r->Err_0.error == error,
        },
{
    let parts = split(chars_of(text).as_slice(), CharClass::Is(','));
    let ghost all = pieces(text@, CharClass::Is(','));
    let mut entries: Vec<String> = Vec::new();
    let mut i: usize = 0;
    while i < parts.len()
        invariant
            i <= parts@.len(),
            all == char_texts(parts@),
            entries@.len() == i,
            forall|j: int|
                0 <= j < i ==> (#[trigger] entries@[j])@ == trimmed(all[j], CharClass::Whitespace),
        decreases parts.len() - i,
    {
        assert(all[i as int] == parts@[i as int]@);
        entries.push(string_of(trim(parts[i].as_slice(), CharClass::Whitespace)));
        i += 1;
    }
    assert(texts(entries@) =~= inline_entries(text@));
    add_entries(list, &entries)
}

/// Adds the resolvers of a file with one per line, each once. Blank lines and comments are
/// skipped. The first line that is no resolver is reported.
pub fn add_file_resolvers(list: &mut Vec<SocketAddr>, text: &str) -> (r: Result<(), BadResolver>)
    ensures
        match with_entries(old(list)@, file_entries(text@), file_entries(text@).len() as int) {
            Ok(v) => r is Ok && final(list)@ == v,
            Err((place, entry, error)) => r is Err && r->Err_0.number == place + 1
                && r->Err_0.text@ == entry && r->Err_0.error == error,
        },
{
    let parts = lines_of(chars_of(text).as_slice());
    let ghost all = lines(text@);
    let mut entries: Vec<String> = Vec::new();
    let mut i: usize = 0;
    while i < parts.len()
        invariant
            i <= parts@.len(),
            all == char_texts(parts@),
            entries@.len() == i,
            forall|j: int| 0 <= j < i ==> (#[trigger] entries@[j])@ == without_comment(all[j]),
        decreases parts.len() - i,
    {
        assert(all[i as int] == parts@[i as int]@);
        let entry = match clean_resolver_line(string_of(parts[i].as_slice()).as_str()) {
            Some(s) => s,
            None => String::new(),
        };
        assert(entry@ =~= without_comment(all[i as int]));
        entries.push(entry);
        i += 1;
    }
    assert(texts(entries@) =~= file_entries(text@));
    add_entries(list, &entries)
}

/// The resolvers that were read, for a run that was given a list: one without any entry is
/// refused. Without a list there is no choice.
pub fn resolver_choice(given: bool, list: Vec<SocketAddr>) -> (r: Result<
    Option<Vec<SocketAddr>>,
    ResolverError,
>)
    ensures
        match r {
            Ok(Some(v)) => given && list@.len() > 0 && v == list,
            Ok(None) => !given,
            Err(e) => given && list@.len() == 0 && e == ResolverError::Empty,
        },
{
    if !given {
        Ok(None)
    } else if list.len() == 0 {
        Err(ResolverError::Empty)
    } else {
        Ok(Some(list))
    }
}

/// A list without repetition stays so when entries are added.
pub proof fn law_resolver_lists_hold_nothing_twice(
    list: Seq<SocketAddr>,
    entries: Seq<Seq<char>>,
    n: int,
)
    requires
        list.no_duplicates(),
    ensures
        with_entries(list, entries, n) matches Ok(v) ==> v.no_duplicates() && list.is_prefix_of(v),
    decreases n,
{
    if 0 < n <= entries.len() {
        law_resolver_lists_hold_nothing_twice(list, entries, n - 1);
        if let Ok(before) = with_entries(list, entries, n - 1) {
            if let Ok(a) = resolver_value(entries[n - 1]) {
                crate::lists::lemma_added(before, a);
                let v = added(before, a);
                assert(list =~= v.take(list.len() as int));
            }
        }
    }
}

/// With `no_skip_zones` neither short cut is left on; nor with the strict preset, unless
/// the flaky rule is asked for by an option of its own.
pub proof fn law_zone_short_cuts_are_switched_off(base: DnsConfig, o: DnsOptions)
    requires
        o.no_skip_zones || o.strict && o.flaky_min_samples is None,
    ensures
        !configured(base, o).skip_dead_zones,
        !configured(base, o).flaky_rule(),
{
}

/// Single options win over presets: where one is given, it does not matter whether a
/// preset was asked for.
pub proof fn law_options_win_over_presets(base: DnsConfig, o: DnsOptions, p: DnsOptions)
    requires
        p == (DnsOptions { fast: p.fast, strict: p.strict, ..o }),
    ensures
        o.concurrency is Some ==> configured(base, o).concurrency == configured(
            base,
            p,
        ).concurrency,
        o.timeout_secs is Some ==> configured(base, o).timeout_secs == configured(
            base,
            p,
        ).timeout_secs,
        o.wildcard_tests is Some ==> configured(base, o).wildcard_tests == configured(
            base,
            p,
        ).wildcard_tests,
        o.probe_concurrency is Some ==> configured(base, o).probe_concurrency == configured(
            base,
            p,
        ).probe_concurrency,
        o.flaky_min_samples is Some || o.no_skip_zones ==> configured(base, o).flaky_min_samples
            == configured(base, p).flaky_min_samples,
        o.no_infer_wildcard_timeout ==> configured(base, o).infer_wildcard_on_timeout
            == configured(base, p).infer_wildcard_on_timeout,
{
}

/// Each option has its effect: what is given is taken, but at least one where nothing would
/// be done with zero, and what is switched off is off, whatever the presets are.
pub proof fn law_options_have_their_effect(base: DnsConfig, o: DnsOptions)
    ensures
        ({
            let c = configured(base, o);
            &&& o.concurrency matches Some(n) ==> c.concurrency >= 1 && (n >= 1 ==> c.concurrency
                == n)
            &&& o.timeout_secs matches Some(n) ==> c.timeout_secs >= 1 && (n >= 1
                ==> c.timeout_secs == n)
            &&& o.retries matches Some(n) ==> c.retries >= 1 && (n >= 1 ==> c.retries == n)
            &&& o.wildcard_tests matches Some(n) ==> c.wildcard_tests >= 1 && (n >= 1
                ==> c.wildcard_tests == n)
            &&& o.consistency_checks matches Some(n) ==> c.consistency_checks >= 1 && (n >= 1
                ==> c.consistency_checks == n)
            &&& o.probe_concurrency matches Some(n) ==> c.probe_concurrency == n
            &&& o.flaky_min_samples matches Some(n) ==> c.flaky_min_samples == (if o.no_skip_zones {
                0
            } else {
                n
            })
            &&& o.flaky_threshold matches Some(t) ==> !o.no_skip_zones ==> c.flaky_threshold == t
            &&& c.wildcard_filter <==> !o.no_wildcard_filter
            &&& o.no_infer_wildcard_timeout || o.strict ==> !c.infer_wildcard_on_timeout
            &&& o.no_skip_zones || o.strict ==> !c.skip_dead_zones
            &&& c.resolvers == base.resolvers
            &&& c.resolver_unhealthy_threshold == base.resolver_unhealthy_threshold
            &&& c.resolver_min_samples == base.resolver_min_samples
            &&& c.hijack_probe_interval_secs == base.hijack_probe_interval_secs
        }),
{
}

/// Without presets and options a configuration stays as it is, and an option changes nothing
/// but what it is for.
pub proof fn law_nothing_else_is_changed(base: DnsConfig, o: DnsOptions)
    requires
        !o.fast,
        !o.strict,
        base.wildcard_filter,
    ensures
        ({
            let c = configured(base, o);
            &&& o.concurrency is None ==> c.concurrency == base.concurrency
            &&& o.timeout_secs is None ==> c.timeout_secs == base.timeout_secs
            &&& o.retries is None ==> c.retries == base.retries
            &&& o.wildcard_tests is None ==> c.wildcard_tests == base.wildcard_tests
            &&& !o.no_wildcard_filter ==> c.wildcard_filter == base.wildcard_filter
            &&& o.consistency_checks is None ==> c.consistency_checks == base.consistency_checks
            &&& o.probe_concurrency is None ==> c.probe_concurrency == base.probe_concurrency
            &&& !o.no_skip_zones ==> c.skip_dead_zones == base.skip_dead_zones
            &&& o.flaky_threshold is None ==> c.flaky_threshold == base.flaky_threshold
            &&& !o.no_skip_zones && o.flaky_min_samples is None ==> c.flaky_min_samples
                == base.flaky_min_samples
            &&& !o.no_infer_wildcard_timeout ==> c.infer_wildcard_on_timeout
                == base.infer_wildcard_on_timeout
        }),
{
}

/// The presets. The fast one asks for more at a time, waits for three seconds and probes a
/// zone eight times. The strict one goes by nothing but observations.
pub proof fn law_presets_have_their_effect(base: DnsConfig, o: DnsOptions)
    requires
        o.concurrency is None,
        o.timeout_secs is None,
        o.wildcard_tests is None,
        o.probe_concurrency is None,
        o.flaky_min_samples is None,
        !o.no_skip_zones,
        !o.no_infer_wildcard_timeout,
    ensures
        o.fast ==> configured(base, o).concurrency == 200 && configured(base, o).timeout_secs == 3
            && configured(base, o).wildcard_tests == 8 && configured(base, o).probe_concurrency
            == 100,
        o.fast && !o.strict ==> configured(base, o).flaky_min_samples == 8 && configured(
            base,
            o,
        ).skip_dead_zones == base.skip_dead_zones,
        o.strict ==> configured(base, o).flaky_min_samples == 0 && !configured(
            base,
            o,
        ).skip_dead_zones && !configured(base, o).infer_wildcard_on_timeout && !configured(
            base,
            o,
        ).flaky_rule(),
        o.strict && !o.fast ==> configured(base, o).concurrency == base.concurrency && configured(
            base,
            o,
        ).wildcard_tests == base.wildcard_tests,
{
}

/// A resolver is read back from its socket address, and from an address alone with port 53.
pub proof fn law_resolvers_are_read_back(a: SocketAddr)
    requires
        a.ip is V4 ==> a.scope == 0,
    ensures
        resolver_value(a.text()) == Ok::<SocketAddr, ResolverError>(a),
        resolver_value(a.ip.text()) == Ok::<SocketAddr, ResolverError>(
            SocketAddr { ip: a.ip, port: 53, scope: 0 },
        ),
{
    let (t, x) = (a.text(), a.ip.text());
    let k = CharClass::Whitespace;
    law_socket_addresses_are_read_back(a);
    law_addresses_are_read_back(a.ip);
    lemma_address_text(a.ip);
    let d = crate::numbers::decimal(a.port as nat);
    crate::numbers::lemma_decimal(a.port as nat);
    assert(CharClass::HexDigit.has(x[0]) || x[0] == ':' || x[0] == '.');
    assert(CharClass::HexDigit.has(x[x.len() - 1]) || x[x.len() - 1] == ':' || x[x.len() - 1]
        == '.');
    assert(t[0] == x[0] || t[0] == '[');
    assert(t.last() == d[d.len() - 1]);
    assert(CharClass::Digit.has(d[d.len() - 1]));
    crate::text::lemma_unchanged_by_trim(t, k);
    crate::text::lemma_unchanged_by_trim(x, k);
    crate::ip::lemma_address_is_no_socket(a.ip);
}

/// The list that entries make. There is one exactly if every entry that is not blank is a
/// resolver; it holds what it held before and exactly the resolvers of the entries. Otherwise
/// the first entry that is none is named.
pub proof fn law_entries_make_the_list(list: Seq<SocketAddr>, entries: Seq<Seq<char>>, n: int)
    requires
        0 <= n <= entries.len(),
    ensures
        with_entries(list, entries, n) is Ok <==> forall|i: int|
            0 <= i < n && (#[trigger] entries[i]).len() > 0 ==> resolver_value(entries[i]) is Ok,
        with_entries(list, entries, n) matches Ok(v) ==> forall|a: SocketAddr| #[trigger]
            v.contains(a) <==> list.contains(a) || exists|i: int|
                0 <= i < n && (#[trigger] entries[i]).len() > 0 && resolver_value(entries[i]) == Ok::<
                    SocketAddr,
                    ResolverError,
                >(a),
        with_entries(list, entries, n) matches Err(e) ==> 0 <= e.0 < n && e.1 == entries[e.0]
            && e.1.len() > 0 && resolver_value(e.1) == Err::<SocketAddr, ResolverError>(e.2)
            && forall|i: int|
            0 <= i < e.0 && (#[trigger] entries[i]).len() > 0 ==> resolver_value(entries[i]) is Ok,
{
    let f = |t: Seq<char>| resolver_value(t);
    lemma_entries_are_read(list, entries, n);
    lemma_read_entries(list, entries, f, n);
    if let Ok(v) = with_entries(list, entries, n) {
        assert forall|a: SocketAddr| #[trigger] v.contains(a) <==> list.contains(a) || (exists|
            i: int,
        |
            0 <= i < n && (#[trigger] entries[i]).len() > 0 && resolver_value(entries[i]) == Ok::<
                SocketAddr,
                ResolverError,
            >(a)) by {
            assert(v.contains(a) <==> list.contains(a) || exists|i: int|
                0 <= i < n && (#[trigger] entries[i]).len() > 0 && f(entries[i]) == Ok::<
                    SocketAddr,
                    ResolverError,
                >(a));
        }
    }
}

/// A list with what a function reads in entries added in turn.
spec fn with_read(
    list: Seq<SocketAddr>,
    entries: Seq<Seq<char>>,
    f: spec_fn(Seq<char>) -> Result<SocketAddr, ResolverError>,
    n: int,
) -> Result<Seq<SocketAddr>, (int, Seq<char>, ResolverError)>
    decreases n,
{
    if n <= 0 || n > entries.len() {
        Ok(list)
    } else {
        match with_read(list, entries, f, n - 1) {
            Err(e) => Err(e),
            Ok(before) => if entries[n - 1].len() == 0 {
                Ok(before)
            } else {
                match f(entries[n - 1]) {
                    Ok(a) => Ok(added(before, a)),
                    Err(e) => Err((n - 1, entries[n - 1], e)),
                }
            },
        }
    }
}

proof fn lemma_entries_are_read(list: Seq<SocketAddr>, entries: Seq<Seq<char>>, n: int)
    requires
        0 <= n <= entries.len(),
    ensures
        with_entries(list, entries, n) == with_read(
            list,
            entries,
            |t: Seq<char>| resolver_value(t),
            n,
        ),
    decreases n,
{
    if n > 0 {
        lemma_entries_are_read(list, entries, n - 1);
    }
}

proof fn lemma_read_entries(
    list: Seq<SocketAddr>,
    entries: Seq<Seq<char>>,
    f: spec_fn(Seq<char>) -> Result<SocketAddr, ResolverError>,
    n: int,
)
    requires
        0 <= n <= entries.len(),
    ensures
        with_read(list, entries, f, n) is Ok <==> forall|i: int|
            0 <= i < n && (#[trigger] entries[i]).len() > 0 ==> f(entries[i]) is Ok,
        with_read(list, entries, f, n) matches Ok(v) ==> forall|a: SocketAddr| #[trigger]
            v.contains(a) <==> list.contains(a) || exists|i: int|
                0 <= i < n && (#[trigger] entries[i]).len() > 0 && f(entries[i]) == Ok::<
                    SocketAddr,
                    ResolverError,
                >(a),
        with_read(list, entries, f, n) matches Err(e) ==> 0 <= e.0 < n && e.1 == entries[e.0]
            && e.1.len() > 0 && f(e.1) == Err::<SocketAddr, ResolverError>(e.2) && forall|i: int|
            0 <= i < e.0 && (#[trigger] entries[i]).len() > 0 ==> f(entries[i]) is Ok,
    decreases n,
{
    if n > 0 {
        lemma_read_entries(list, entries, f, n - 1);
        let x = entries[n - 1];
        if let Ok(before) = with_read(list, entries, f, n - 1) {
            assert(entries[n - 1] == x);
            if x.len() > 0 {
                if let Ok(a) = f(x) {
                    crate::lists::lemma_added(before, a);
                }
            }
            if let Ok(v) = with_read(list, entries, f, n) {
                assert forall|a: SocketAddr| #[trigger] v.contains(a) <==> list.contains(a) || (
                exists|i: int|
                    0 <= i < n && (#[trigger] entries[i]).len() > 0 && f(entries[i]) == Ok::<
                        SocketAddr,
                        ResolverError,
                    >(a)) by {
                    assert(before.contains(a) <==> list.contains(a) || exists|i: int|
                        0 <= i < n - 1 && (#[trigger] entries[i]).len() > 0 && f(entries[i])
                            == Ok::<SocketAddr, ResolverError>(a));
                }
            }
        }
    }
}

/// A comment and the whitespace before it are no part of an entry.
pub proof fn law_comments_are_cut(x: Seq<char>, y: Seq<char>)
    requires
        !x.contains('#'),
    ensures
        without_comment(x + seq!['#'] + y) == trimmed(x, CharClass::Whitespace),
        without_comment(x) == trimmed(x, CharClass::Whitespace),
{
    let k = CharClass::Is('#');
    let t = x + seq!['#'] + y;
    let n = x.len() as int;
    assert forall|i: int| 0 <= i < n implies !k.has(#[trigger] t[i]) && !k.has(x[i]) by {
        assert(t[i] == x[i]);
        assert(x.contains(x[i]));
    }
    assert forall|i: int| 0 <= i < n implies !k.has(#[trigger] x[i]) by {
        assert(x.contains(x[i]));
    }
    crate::text::lemma_index_is(t, k, 0, n);
    crate::text::lemma_index_is(x, k, 0, n);
    assert(t.take(n) =~= x);
    assert(x.take(n) =~= x);
}

/// The entries of an inline list are what stands between its commas, without whitespace
/// around.
pub proof fn law_inline_entries_stand_between_commas(v: Seq<Seq<char>>)
    requires
        v.len() >= 1,
        forall|i: int| 0 <= i < v.len() ==> !(#[trigger] v[i]).contains(','),
    ensures
        inline_entries(crate::text::joined(v, seq![','])) == v.map_values(
            |t: Seq<char>| trimmed(t, CharClass::Whitespace),
        ),
{
    crate::text::law_joined_texts_are_split_again(v, ',');
}

/// What is done unless something else is asked for.
pub proof fn law_default_configuration(c: DnsConfig, resolvers: Seq<SocketAddr>)
    requires
        is_default_with(c, resolvers),
    ensures
        c.resolvers@ == resolvers,
        c.concurrency == 50 && c.probe_concurrency == 25,
        c.timeout_secs == 5 && c.retries == 2,
        c.wildcard_filter && c.wildcard_tests == 6,
        c.consistency_checks == 2,
        c.skip_dead_zones && c.infer_wildcard_on_timeout,
        c.flaky_rule() && c.flaky_min_samples == 10 && c.flaky_threshold.num * 5
            == c.flaky_threshold.den * 4,
        c.resolver_min_samples == 20 && c.resolver_unhealthy_threshold.num * 2
            == c.resolver_unhealthy_threshold.den,
        c.hijack_probe_interval_secs == 30,
{
}

} // verus!

//! Scope rule compilation and matching.
//!
//! A `ScopeMatcher` is built once from a list of rules and indexed by kind. Rules
//! that cannot be classified are dropped.

use vstd::prelude::*;
use vstd::slice::slice_subrange;

use crate::classify::{
    asset_of_input, classified, classify_str, domain_base, law_kind_decides_fields,
    registrable_form,
};
use crate::dedupe::{
    bare_host, covers, host_without_port, is_covered_by_wildcard,
    law_canonical_form_without_port_is_host,
};
use crate::lists::{lemma_added, places, Groups, UniqueTexts};
use crate::model::{Asset, AssetKind, AssetView};
use crate::normalize::{before_path, normal_form, unquoted, NormalizedView};
use crate::psl::{registrable_part, SuffixList};
use crate::text::{
    chars_of, copy_opt, find_text, has_substring, opt_text, same_str, string_of, texts, trim,
    trimmed, CharClass,
};

verus! {

/// What a rule is matched against.
#[derive(Debug, Clone, Copy, PartialEq, Eq, Structural)]
pub enum RuleKind {
    Apex,
    Subdomain,
    Wildcard,
    Ip,
    Url,
}

/// A compiled rule.
#[derive(Debug, Clone)]
pub struct Rule {
    pub raw: String,
    pub kind: RuleKind,
    pub canonical: String,
    pub registrable: Option<String>,
}

/// What a compiled rule says.
pub struct RuleView {
    pub raw: Seq<char>,
    pub kind: RuleKind,
    pub canonical: Seq<char>,
    pub registrable: Option<Seq<char>>,
}

impl View for Rule {
    type V = RuleView;

    open spec fn view(&self) -> RuleView {
        RuleView {
            raw: self.raw@,
            kind: self.kind,
            canonical: self.canonical@,
            registrable: opt_text(self.registrable),
        }
    }
}

/// What a list of rules says.
pub open spec fn rule_views(v: Seq<Rule>) -> Seq<RuleView> {
    v.map_values(|r: Rule| r@)
}

/// The part of an asset that rules are compared with: the canonical form, without
/// its port unless ports count.
pub open spec fn scope_host(a: AssetView, respect_port: bool) -> Seq<char> {
    if respect_port {
        a.canonical
    } else {
        bare_host(a)
    }
}

/// The rule that a line stands for, given the asset that the line is.
pub open spec fn rule_from(raw: Seq<char>, a: AssetView, respect_port: bool) -> Option<RuleView> {
    let canonical = scope_host(a, respect_port);
    let kind = if has_substring(raw, "://"@) {
        Some(RuleKind::Url)
    } else {
        match a.kind {
            AssetKind::Apex => Some(RuleKind::Apex),
            AssetKind::Subdomain => Some(RuleKind::Subdomain),
            AssetKind::Wildcard => Some(RuleKind::Wildcard),
            AssetKind::Ip => Some(RuleKind::Ip),
            AssetKind::Garbage => None,
        }
    };
    if a.kind is Garbage || kind is None {
        None
    } else {
        Some(RuleView { raw, kind: kind->0, canonical, registrable: a.registrable })
    }
}

/// The rule that a line stands for. Blank lines, comments and lines that are no
/// asset stand for none.
pub open spec fn rule_of(
    line: Seq<char>,
    suffixes: Map<Seq<char>, bool>,
    respect_port: bool,
) -> Option<RuleView> {
    let raw = trimmed(line, CharClass::Whitespace);
    if raw.len() == 0 || raw[0] == '#' {
        None
    } else {
        rule_from(raw, asset_of_input(raw, suffixes), respect_port)
    }
}

/// The rules that lines stand for.
pub open spec fn rules_of(
    lines: Seq<Seq<char>>,
    suffixes: Map<Seq<char>, bool>,
    respect_port: bool,
) -> Seq<RuleView>
    decreases lines.len(),
{
    if lines.len() == 0 {
        Seq::empty()
    } else {
        let rest = rules_of(lines.drop_last(), suffixes, respect_port);
        match rule_of(lines.last(), suffixes, respect_port) {
            Some(r) => rest.push(r),
            None => rest,
        }
    }
}

/// Whether `parent` is a host above `host`: what follows one of its dots.
pub open spec fn is_parent(parent: Seq<char>, host: Seq<char>) -> bool {
    exists|i: int|
        0 <= i < host.len() && #[trigger] host[i] == '.' && host.skip(i + 1) == parent
}

/// Whether a rule matches an asset whose compared form is `host`.
pub open spec fn hits(rule: RuleView, a: AssetView, host: Seq<char>, strict: bool) -> bool {
    match a.kind {
        AssetKind::Garbage => false,
        AssetKind::Ip => rule.kind is Ip && rule.canonical == host,
        AssetKind::Apex => (rule.kind is Apex || rule.kind is Url) && rule.canonical == host,
        AssetKind::Wildcard => {
            &&& rule.kind is Wildcard
            &&& a.registrable is Some
            &&& rule.registrable == a.registrable
            &&& rule.canonical == host
        },
        AssetKind::Subdomain => {
            ||| (rule.kind is Subdomain || rule.kind is Url) && rule.canonical == host
            ||| {
                &&& rule.kind is Wildcard
                &&& a.registrable is Some
                &&& rule.registrable == a.registrable
                &&& covers(rule.canonical, host)
            }
            ||| {
                &&& !strict
                &&& rule.kind is Apex || rule.kind is Url || rule.kind is Subdomain
                &&& is_parent(rule.canonical, host)
            }
        },
    }
}

/// Whether some rule with this text matches an asset.
pub open spec fn some_hit(
    rules: Seq<RuleView>,
    raw: Seq<char>,
    a: AssetView,
    host: Seq<char>,
    strict: bool,
) -> bool {
    exists|i: int|
        0 <= i < rules.len() && hits(#[trigger] rules[i], a, host, strict) && rules[i].raw == raw
}

/// Places below `i` of the rules of one kind, by canonical form or, for wildcards,
/// by registrable domain.
spec fn rule_places(rules: Seq<RuleView>, kind: RuleKind, key: Seq<char>, i: int) -> Seq<int>
    decreases i,
{
    if i <= 0 {
        Seq::empty()
    } else {
        let r = rules[i - 1];
        let rest = rule_places(rules, kind, key, i - 1);
        if r.kind == kind && (if kind is Wildcard {
            r.registrable == Some(key)
        } else {
            r.canonical == key
        }) {
            rest.push(i - 1)
        } else {
            rest
        }
    }
}

/// Compiled scope rules.
pub struct ScopeMatcher {
    rules: Vec<Rule>,
    respect_port: bool,
    exact_apex: Groups,
    exact_subdomain: Groups,
    exact_url: Groups,
    exact_ip: Groups,
    wildcards_by_reg: Groups,
}

impl View for ScopeMatcher {
    type V = Seq<RuleView>;

    closed spec fn view(&self) -> Seq<RuleView> {
        rule_views(self.rules@)
    }
}

proof fn lemma_rule_places(rules: Seq<RuleView>, kind: RuleKind, key: Seq<char>, i: int)
    requires
        0 <= i <= rules.len(),
    ensures
        forall|n: int|
            0 <= n < rule_places(rules, kind, key, i).len() ==> {
                let j = #[trigger] rule_places(rules, kind, key, i)[n];
                0 <= j < i && rules[j].kind == kind && (if kind is Wildcard {
                    rules[j].registrable == Some(key)
                } else {
                    rules[j].canonical == key
                })
            },
        forall|j: int|
            0 <= j < i && (#[trigger] rules[j]).kind == kind && (if kind is Wildcard {
                rules[j].registrable == Some(key)
            } else {
                rules[j].canonical == key
            }) ==> rule_places(rules, kind, key, i).contains(j),
    decreases i,
{
    if i > 0 {
        lemma_rule_places(rules, kind, key, i - 1);
        let u = rule_places(rules, kind, key, i - 1);
        let v = rule_places(rules, kind, key, i);
        assert forall|n: int| 0 <= n < v.len() implies {
            let j = #[trigger] v[n];
            0 <= j < i && rules[j].kind == kind && (if kind is Wildcard {
                rules[j].registrable == Some(key)
            } else {
                rules[j].canonical == key
            })
        } by {
            if n < u.len() {
                assert(v[n] == u[n]);
            }
        }
        assert forall|j: int|
            0 <= j < i && (#[trigger] rules[j]).kind == kind && (if kind is Wildcard {
                rules[j].registrable == Some(key)
            } else {
                rules[j].canonical == key
            }) implies v.contains(j) by {
            if j < i - 1 {
                assert(u.contains(j));
                let n = choose|n: int| 0 <= n < u.len() && u[n] == j;
                assert(v[n] == j);
            } else {
                assert(v[v.len() - 1] == j);
            }
        }
    }
}

impl ScopeMatcher {
    spec fn groups(&self, kind: RuleKind) -> Groups {
        match kind {
            RuleKind::Apex => self.exact_apex,
            RuleKind::Subdomain => self.exact_subdomain,
            RuleKind::Wildcard => self.wildcards_by_reg,
            RuleKind::Ip => self.exact_ip,
            RuleKind::Url => self.exact_url,
        }
    }

    spec fn indexed(&self, kind: RuleKind) -> bool {
        &&& self.groups(kind).wf()
        &&& forall|k: Seq<char>| #[trigger]
            self.groups(kind).at(k) == rule_places(self@, kind, k, self@.len() as int)
    }

    /// The indexes hold exactly the rules.
    pub closed spec fn wf(&self) -> bool {
        &&& self.indexed(RuleKind::Apex)
        &&& self.indexed(RuleKind::Subdomain)
        &&& self.indexed(RuleKind::Wildcard)
        &&& self.indexed(RuleKind::Ip)
        &&& self.indexed(RuleKind::Url)
    }

    /// Whether ports count.
    pub closed spec fn respects_port(&self) -> bool {
        self.respect_port
    }

    /// Compiles rules that are matched by host, whatever the port.
    pub fn compile(rules: &Vec<String>, list: &SuffixList) -> (r: Self)
        ensures
            r.wf(),
            r@ == rules_of(texts(rules@), list@, false),
            !r.respects_port(),
    {
        ScopeMatcher::compile_with_options(rules, list, false)
    }

    /// Compiles rules; ports count if `respect_port` is set.
    pub fn compile_with_options(rules: &Vec<String>, list: &SuffixList, respect_port: bool) -> (r:
        Self)
        ensures
            r.wf(),
            r@ == rules_of(texts(rules@), list@, respect_port),
            r.respects_port() == respect_port,
    {
        let mut m = ScopeMatcher {
            rules: Vec::new(),
            respect_port,
            exact_apex: Groups::new(),
            exact_subdomain: Groups::new(),
            exact_url: Groups::new(),
            exact_ip: Groups::new(),
            wildcards_by_reg: Groups::new(),
        };
        let ghost lines = texts(rules@);
        assert(m@ =~= rules_of(lines.take(0), list@, respect_port));
        let mut i: usize = 0;
        while i < rules.len()
            invariant
                i <= rules@.len(),
                lines == texts(rules@),
                m.wf(),
                m.respect_port == respect_port,
                m@ == rules_of(lines.take(i as int), list@, respect_port),
            decreases rules.len() - i,
        {
            assert(lines.take(i + 1).drop_last() =~= lines.take(i as int));
            assert(lines.take(i + 1).last() == rules@[i as int]@);
            if let Some(rule) = compile_line(rules[i].as_str(), list, respect_port) {
                m.push(rule);
            }
            i += 1;
        }
        assert(lines.take(i as int) =~= lines);
        m
    }

    fn push(&mut self, rule: Rule)
        requires
            old(self).wf(),
            rule.kind is Wildcard ==> rule.registrable is Some,
        ensures
            final(self).wf(),
            final(self)@ == old(self)@.push(rule@),
            final(self).respect_port == old(self).respect_port,
    {
        let i: usize = self.rules.len();
        match rule.kind {
            RuleKind::Apex => self.exact_apex.add(rule.canonical.as_str(), i),
            RuleKind::Subdomain => self.exact_subdomain.add(rule.canonical.as_str(), i),
            RuleKind::Url => self.exact_url.add(rule.canonical.as_str(), i),
            RuleKind::Ip => self.exact_ip.add(rule.canonical.as_str(), i),
            RuleKind::Wildcard => {
                if let Some(d) = &rule.registrable {
                    self.wildcards_by_reg.add(d.as_str(), i);
                }
            },
        }
        let ghost view = rule@;
        self.rules.push(rule);
        proof {
            assert(self@ =~= old(self)@.push(view));
            assert(old(self)@ =~= self@.take(i as int));
            assert forall|kind: RuleKind, k: Seq<char>|
                #![trigger rule_places(self@, kind, k, i as int)]
                rule_places(self@, kind, k, i as int) == rule_places(
                    old(self)@,
                    kind,
                    k,
                    i as int,
                ) by {
                lemma_same_places(old(self)@, self@, kind, k, i as int);
            }
            assert forall|kind: RuleKind| #[trigger] self.indexed(kind) by {
                assert(old(self).indexed(kind));
                assert forall|k: Seq<char>| #[trigger] self.groups(kind).at(k) == rule_places(
                    self@,
                    kind,
                    k,
                    self@.len() as int,
                ) by {
                    assert(old(self).groups(kind).at(k) == rule_places(
                        old(self)@,
                        kind,
                        k,
                        i as int,
                    ));
                    assert(rule_places(self@, kind, k, i as int) == rule_places(
                        old(self)@,
                        kind,
                        k,
                        i as int,
                    ));
                }
            }
            assert(self.indexed(RuleKind::Apex));
            assert(self.indexed(RuleKind::Subdomain));
            assert(self.indexed(RuleKind::Wildcard));
            assert(self.indexed(RuleKind::Ip));
            assert(self.indexed(RuleKind::Url));
        }
    }

    fn add_exact(&self, found: &mut UniqueTexts, kind: RuleKind, host: &str)
        requires
            self.wf(),
            !(kind is Wildcard),
            old(found).wf(),
        ensures
            final(found).wf(),
            forall|t: Seq<char>| #[trigger]
                final(found)@.contains(t) <==> old(found)@.contains(t) || exists|j: int|
                    0 <= j < self@.len() && (#[trigger] self@[j]).kind == kind && self@[j].canonical
                        == host@ && self@[j].raw == t,
    {
        let groups = match kind {
            RuleKind::Apex => &self.exact_apex,
            RuleKind::Subdomain => &self.exact_subdomain,
            RuleKind::Wildcard => &self.wildcards_by_reg,
            RuleKind::Ip => &self.exact_ip,
            RuleKind::Url => &self.exact_url,
        };
        assert(self.indexed(kind));
        let ghost at = rule_places(self@, kind, host@, self@.len() as int);
        assert(groups.at(host@) == at);
        proof {
            lemma_rule_places(self@, kind, host@, self@.len() as int);
        }
        if let Some(v) = groups.get(host) {
            let mut i: usize = 0;
            while i < v.len()
                invariant
                    i <= v@.len(),
                    found.wf(),
                    places(v@) == at,
                    forall|n: int| 0 <= n < at.len() ==> 0 <= #[trigger] at[n] < self@.len(),
                    forall|t: Seq<char>| #[trigger]
                        found@.contains(t) <==> old(found)@.contains(t) || exists|n: int|
                            0 <= n < i && self@[#[trigger] at[n]].raw == t,
                decreases v.len() - i,
            {
                assert(at[i as int] == v@[i as int]);
                let ghost before = found@;
                let raw = self.rules[v[i]].raw.clone();
                assert(raw@ == self@[at[i as int]].raw);
                proof {
                    lemma_added(found@, raw@);
                }
                found.add(raw);
                assert forall|t: Seq<char>| #[trigger] found@.contains(t) <==> old(found)@.contains(
                    t,
                ) || exists|n: int| 0 <= n < i + 1 && self@[#[trigger] at[n]].raw == t by {
                    assert(found@.contains(t) <==> before.contains(t) || t == raw@);
                }
                i += 1;
            }
        }
        assert forall|t: Seq<char>| #[trigger] found@.contains(t) <==> old(found)@.contains(t)
            || exists|j: int|
            0 <= j < self@.len() && (#[trigger] self@[j]).kind == kind && self@[j].canonical
                == host@ && self@[j].raw == t by {
            if exists|j: int|
                0 <= j < self@.len() && (#[trigger] self@[j]).kind == kind && self@[j].canonical
                    == host@ && self@[j].raw == t {
                let j = choose|j: int|
                    0 <= j < self@.len() && (#[trigger] self@[j]).kind == kind && self@[j].canonical
                        == host@ && self@[j].raw == t;
                assert(at.contains(j));
                let n = choose|n: int| 0 <= n < at.len() && at[n] == j;
                assert(self@[at[n]].raw == t);
            }
        }
    }

    fn add_wildcards(&self, found: &mut UniqueTexts, domain: &str, host: &str, covering: bool)
        requires
            self.wf(),
            old(found).wf(),
        ensures
            final(found).wf(),
            forall|t: Seq<char>| #[trigger]
                final(found)@.contains(t) <==> old(found)@.contains(t) || exists|j: int|
                    0 <= j < self@.len() && wildcard_hits(
                        #[trigger] self@[j],
                        domain@,
                        host@,
                        covering,
                    ) && self@[j].raw == t,
    {
        let ghost at = rule_places(self@, RuleKind::Wildcard, domain@, self@.len() as int);
        assert(self.indexed(RuleKind::Wildcard));
        assert(self.groups(RuleKind::Wildcard).at(domain@) == at);
        proof {
            lemma_rule_places(self@, RuleKind::Wildcard, domain@, self@.len() as int);
        }
        if let Some(v) = self.wildcards_by_reg.get(domain) {
            let mut i: usize = 0;
            while i < v.len()
                invariant
                    i <= v@.len(),
                    found.wf(),
                    places(v@) == at,
                    forall|n: int|
                        0 <= n < at.len() ==> 0 <= #[trigger] at[n] < self@.len()
                            && self@[at[n]].kind is Wildcard && self@[at[n]].registrable == Some(
                            domain@,
                        ),
                    forall|t: Seq<char>| #[trigger]
                        found@.contains(t) <==> old(found)@.contains(t) || exists|n: int|
                            0 <= n < i && wildcard_hits(
                                self@[#[trigger] at[n]],
                                domain@,
                                host@,
                                covering,
                            ) && self@[at[n]].raw == t,
                decreases v.len() - i,
            {
                assert(at[i as int] == v@[i as int]);
                let ghost before = found@;
                let rule = &self.rules[v[i]];
                assert(rule@ == self@[at[i as int]]);
                let hit = if covering {
                    is_covered_by_wildcard(host, rule.canonical.as_str())
                } else {
                    same_str(rule.canonical.as_str(), host)
                };
                if hit {
                    proof {
                        lemma_added(found@, rule.raw@);
                    }
                    found.add(rule.raw.clone());
                }
                assert forall|t: Seq<char>| #[trigger] found@.contains(t) <==> old(found)@.contains(
                    t,
                ) || exists|n: int|
                    0 <= n < i + 1 && wildcard_hits(
                        self@[#[trigger] at[n]],
                        domain@,
                        host@,
                        covering,
                    ) && self@[at[n]].raw == t by {
                    assert(found@.contains(t) <==> before.contains(t) || (hit && t == rule.raw@));
                }
                i += 1;
            }
        }
        assert forall|t: Seq<char>| #[trigger] found@.contains(t) <==> old(found)@.contains(t)
            || exists|j: int|
            0 <= j < self@.len() && wildcard_hits(#[trigger] self@[j], domain@, host@, covering)
                && self@[j].raw == t by {
            if exists|j: int|
                0 <= j < self@.len() && wildcard_hits(#[trigger] self@[j], domain@, host@, covering)
                    && self@[j].raw == t {
                let j = choose|j: int|
                    0 <= j < self@.len() && wildcard_hits(
                        #[trigger] self@[j],
                        domain@,
                        host@,
                        covering,
                    ) && self@[j].raw == t;
                assert(at.contains(j));
                let n = choose|n: int| 0 <= n < at.len() && at[n] == j;
                assert(self@[at[n]].raw == t);
            }
        }
    }

    /// The texts of all rules that match an asset, each once. None means that the
    /// asset is out of scope.
    pub fn matches(&self, asset: &Asset, strict: bool) -> (r: Vec<String>)
        requires
            self.wf(),
        ensures
            texts(r@).no_duplicates(),
            forall|t: Seq<char>| #[trigger]
                texts(r@).contains(t) <==> some_hit(
                    self@,
                    t,
                    asset@,
                    scope_host(asset@, self.respects_port()),
                    strict,
                ),
    {
        let mut found = UniqueTexts::new();
        let host = if self.respect_port {
            asset.canonical.clone()
        } else {
            host_without_port(asset)
        };
        match asset.kind {
            AssetKind::Garbage => {},
            AssetKind::Ip => {
                self.add_exact(&mut found, RuleKind::Ip, host.as_str());
            },
            AssetKind::Apex => {
                self.add_exact(&mut found, RuleKind::Apex, host.as_str());
                self.add_exact(&mut found, RuleKind::Url, host.as_str());
            },
            AssetKind::Subdomain => {
                self.add_exact(&mut found, RuleKind::Subdomain, host.as_str());
                self.add_exact(&mut found, RuleKind::Url, host.as_str());
                if let Some(d) = &asset.registrable {
                    self.add_wildcards(&mut found, d.as_str(), host.as_str(), true);
                }
                if !strict {
                    self.add_parents(&mut found, host.as_str());
                }
            },
            AssetKind::Wildcard => {
                if let Some(d) = &asset.registrable {
                    self.add_wildcards(&mut found, d.as_str(), host.as_str(), false);
                }
            },
        }
        found.into_vec()
    }

    fn add_parents(&self, found: &mut UniqueTexts, host: &str)
        requires
            self.wf(),
            old(found).wf(),
        ensures
            final(found).wf(),
            forall|t: Seq<char>| #[trigger]
                final(found)@.contains(t) <==> old(found)@.contains(t) || exists|j: int|
                    0 <= j < self@.len() && parent_hits(#[trigger] self@[j], host@, 0)
                        && self@[j].raw == t,
    {
        let chars = chars_of(host);
        let n: usize = chars.len();
        let ghost h = host@;
        let mut i: usize = n;
        while i > 0
            invariant
                self.wf(),
                found.wf(),
                chars@ == h,
                h == host@,
                n == h.len(),
                i <= n,
                forall|t: Seq<char>| #[trigger]
                    found@.contains(t) <==> old(found)@.contains(t) || exists|j: int|
                        0 <= j < self@.len() && parent_hits(#[trigger] self@[j], h, i as int)
                            && self@[j].raw == t,
            decreases i,
        {
            let ghost before = found@;
            i -= 1;
            if chars[i] == '.' {
                let parent = string_of(slice_subrange(chars.as_slice(), i + 1, n));
                assert(parent@ =~= h.skip(i + 1));
                self.add_exact(found, RuleKind::Apex, parent.as_str());
                self.add_exact(found, RuleKind::Url, parent.as_str());
                self.add_exact(found, RuleKind::Subdomain, parent.as_str());
                assert forall|t: Seq<char>| #[trigger] found@.contains(t) <==> old(found)@.contains(
                    t,
                ) || exists|j: int|
                    0 <= j < self@.len() && parent_hits(#[trigger] self@[j], h, i as int)
                        && self@[j].raw == t by {
                    lemma_parent_step(self@, h, i as int, t);
                }
            } else {
                assert forall|t: Seq<char>| #[trigger] found@.contains(t) <==> old(found)@.contains(
                    t,
                ) || exists|j: int|
                    0 <= j < self@.len() && parent_hits(#[trigger] self@[j], h, i as int)
                        && self@[j].raw == t by {
                    lemma_parent_step(self@, h, i as int, t);
                    assert(before.contains(t) == found@.contains(t));
                }
            }
        }
    }

    /// Tests whether some rule matches an asset.
    pub fn is_in_scope(&self, asset: &Asset, strict: bool) -> (r: bool)
        requires
            self.wf(),
        ensures
            r == exists|i: int|
                0 <= i < self@.len() && hits(
                    #[trigger] self@[i],
                    asset@,
                    scope_host(asset@, self.respects_port()),
                    strict,
                ),
    {
        let found = self.matches(asset, strict);
        proof {
            let host = scope_host(asset@, self.respects_port());
            if found@.len() > 0 {
                let t = texts(found@)[0];
                assert(texts(found@).contains(t));
                assert(some_hit(self@, t, asset@, host, strict));
            }
            if exists|i: int| 0 <= i < self@.len() && hits(#[trigger] self@[i], asset@, host, strict) {
                let i = choose|i: int|
                    0 <= i < self@.len() && hits(#[trigger] self@[i], asset@, host, strict);
                assert(some_hit(self@, self@[i].raw, asset@, host, strict));
                assert(texts(found@).contains(self@[i].raw));
            }
        }
        found.len() > 0
    }
}

spec fn wildcard_hits(r: RuleView, domain: Seq<char>, host: Seq<char>, covering: bool) -> bool {
    r.kind is Wildcard && r.registrable == Some(domain) && (if covering {
        covers(r.canonical, host)
    } else {
        r.canonical == host
    })
}

spec fn parent_hits(r: RuleView, host: Seq<char>, from: int) -> bool {
    (r.kind is Apex || r.kind is Url || r.kind is Subdomain) && exists|i: int|
        from <= i < host.len() && 0 <= i && #[trigger] host[i] == '.' && host.skip(i + 1)
            == r.canonical
}

proof fn lemma_parent_step(rules: Seq<RuleView>, h: Seq<char>, i: int, t: Seq<char>)
    requires
        0 <= i < h.len(),
    ensures
        (exists|j: int|
            0 <= j < rules.len() && parent_hits(#[trigger] rules[j], h, i) && rules[j].raw == t)
            <==> (exists|j: int|
            0 <= j < rules.len() && parent_hits(#[trigger] rules[j], h, i + 1) && rules[j].raw == t)
            || (h[i] == '.' && exists|j: int|
            0 <= j < rules.len() && ((#[trigger] rules[j]).kind is Apex || rules[j].kind is Url
                || rules[j].kind is Subdomain) && rules[j].canonical == h.skip(i + 1)
                && rules[j].raw == t),
{
    if exists|j: int|
        0 <= j < rules.len() && parent_hits(#[trigger] rules[j], h, i) && rules[j].raw == t {
        let j = choose|j: int|
            0 <= j < rules.len() && parent_hits(#[trigger] rules[j], h, i) && rules[j].raw == t;
        let k = choose|k: int|
            i <= k < h.len() && 0 <= k && #[trigger] h[k] == '.' && h.skip(k + 1)
                == rules[j].canonical;
        if k > i {
            assert(parent_hits(rules[j], h, i + 1));
        }
    }
    if exists|j: int|
        0 <= j < rules.len() && parent_hits(#[trigger] rules[j], h, i + 1) && rules[j].raw == t {
        let j = choose|j: int|
            0 <= j < rules.len() && parent_hits(#[trigger] rules[j], h, i + 1) && rules[j].raw == t;
        assert(parent_hits(rules[j], h, i));
    }
    if h[i] == '.' && exists|j: int|
        0 <= j < rules.len() && ((#[trigger] rules[j]).kind is Apex || rules[j].kind is Url
            || rules[j].kind is Subdomain) && rules[j].canonical == h.skip(i + 1) && rules[j].raw
            == t {
        let j = choose|j: int|
            0 <= j < rules.len() && ((#[trigger] rules[j]).kind is Apex || rules[j].kind is Url
                || rules[j].kind is Subdomain) && rules[j].canonical == h.skip(i + 1)
                && rules[j].raw == t;
        assert(parent_hits(rules[j], h, i));
    }
}

proof fn lemma_same_places(
    a: Seq<RuleView>,
    b: Seq<RuleView>,
    kind: RuleKind,
    key: Seq<char>,
    i: int,
)
    requires
        0 <= i <= a.len() <= b.len(),
        a == b.take(a.len() as int),
    ensures
        rule_places(a, kind, key, i) == rule_places(b, kind, key, i),
    decreases i,
{
    if i > 0 {
        lemma_same_places(a, b, kind, key, i - 1);
        assert(a[i - 1] == b[i - 1]);
    }
}

/// Builds the rule that a line stands for from the asset that the line is.
pub fn rule_from_asset(raw: &str, asset: &Asset, respect_port: bool) -> (r: Option<Rule>)
    ensures
        match r {
            Some(rule) => rule_from(raw@, asset@, respect_port) == Some(rule@),
            None => rule_from(raw@, asset@, respect_port) is None,
        },
{
    proof {
        reveal_strlit("://");
    }
    let plain = match asset.kind {
        AssetKind::Apex => RuleKind::Apex,
        AssetKind::Subdomain => RuleKind::Subdomain,
        AssetKind::Wildcard => RuleKind::Wildcard,
        AssetKind::Ip => RuleKind::Ip,
        AssetKind::Garbage => {
            return None;
        },
    };
    let kind = if find_text(chars_of(raw).as_slice(), "://").is_some() {
        RuleKind::Url
    } else {
        plain
    };
    let canonical = if respect_port {
        asset.canonical.clone()
    } else {
        host_without_port(asset)
    };
    Some(
        Rule {
            raw: raw.to_string(),
            kind,
            canonical,
            registrable: copy_opt(&asset.registrable),
        },
    )
}

fn compile_line(line: &str, list: &SuffixList, respect_port: bool) -> (r: Option<Rule>)
    ensures
        match r {
            Some(rule) => rule_of(line@, list@, respect_port) == Some(rule@) && (rule.kind is Wildcard
                ==> rule.registrable is Some),
            None => rule_of(line@, list@, respect_port) is None,
        },
{
    let chars = chars_of(line);
    let text = trim(chars.as_slice(), CharClass::Whitespace);
    if text.len() == 0 || text[0] == '#' {
        return None;
    }
    let raw = string_of(text);
    let asset = classify_str(raw.as_str(), list);
    rule_from_asset(raw.as_str(), &asset, respect_port)
}

/// What matches strictly also matches loosely.
pub proof fn law_strict_hits_are_loose_hits(
    rules: Seq<RuleView>,
    raw: Seq<char>,
    a: AssetView,
    host: Seq<char>,
)
    requires
        some_hit(rules, raw, a, host, true),
    ensures
        some_hit(rules, raw, a, host, false),
{
    let i = choose|i: int|
        0 <= i < rules.len() && hits(#[trigger] rules[i], a, host, true) && rules[i].raw == raw;
    assert(hits(rules[i], a, host, false));
}

/// More rules match no less.
pub proof fn law_more_rules_match_no_less(
    rules: Seq<RuleView>,
    more: Seq<RuleView>,
    raw: Seq<char>,
    a: AssetView,
    host: Seq<char>,
    strict: bool,
)
    requires
        some_hit(rules, raw, a, host, strict),
    ensures
        some_hit(rules + more, raw, a, host, strict),
{
    let i = choose|i: int|
        0 <= i < rules.len() && hits(#[trigger] rules[i], a, host, strict) && rules[i].raw == raw;
    assert((rules + more)[i] == rules[i]);
}

/// Garbage is out of scope whatever the rules are.
pub proof fn law_garbage_is_out_of_scope(
    rules: Seq<RuleView>,
    raw: Seq<char>,
    a: AssetView,
    host: Seq<char>,
    strict: bool,
)
    requires
        a.kind is Garbage,
    ensures
        !some_hit(rules, raw, a, host, strict),
{
}

proof fn lemma_comments_are_garbage(raw: Seq<char>, suffixes: Map<Seq<char>, bool>)
    requires
        raw == trimmed(raw, CharClass::Whitespace),
        raw.len() == 0 || raw[0] == '#',
    ensures
        asset_of_input(raw, suffixes).kind is Garbage,
{
    if raw.len() > 0 {
        let k = CharClass::Surrounding;
        let t = unquoted(raw);
        assert(crate::text::past_from(raw, k, 0) == 0);
        crate::text::lemma_trimmed(raw, k);
        assert(t.len() > 0) by {
            if t.len() == 0 {
                assert(k.has(raw[0]));
            }
        }
        assert(t[0] == raw[0]);
        reveal_strlit("//");
        if "//"@.is_prefix_of(t) {
            assert(t.subrange(0, 2)[0] == t[0]);
            assert("//"@[0] == '/');
        }
        assert(before_path(t) =~= Seq::empty());
        assert(trimmed(Seq::<char>::empty(), CharClass::Whitespace) =~= Seq::empty());
    }
}

/// What a function makes of lines, where it makes something.
spec fn gathered(lines: Seq<Seq<char>>, f: spec_fn(Seq<char>) -> Option<RuleView>) -> Seq<RuleView>
    decreases lines.len(),
{
    if lines.len() == 0 {
        Seq::empty()
    } else {
        match f(lines.last()) {
            Some(r) => gathered(lines.drop_last(), f).push(r),
            None => gathered(lines.drop_last(), f),
        }
    }
}

proof fn lemma_gathered(
    lines: Seq<Seq<char>>,
    f: spec_fn(Seq<char>) -> Option<RuleView>,
    i: int,
    r: RuleView,
)
    requires
        0 <= i < lines.len(),
        f(lines[i]) == Some(r),
    ensures
        gathered(lines, f).contains(r),
    decreases lines.len(),
{
    let w = lines.drop_last();
    if i < lines.len() - 1 {
        assert(w[i] == lines[i]);
        lemma_gathered(w, f, i, r);
        if let Some(x) = f(lines.last()) {
            crate::lists::lemma_push_contains(gathered(w, f), x, r);
        }
    } else {
        crate::lists::lemma_push_contains(gathered(w, f), r, r);
    }
}

proof fn lemma_rules_are_gathered(
    lines: Seq<Seq<char>>,
    suffixes: Map<Seq<char>, bool>,
    respect_port: bool,
)
    ensures
        rules_of(lines, suffixes, respect_port) == gathered(
            lines,
            |l: Seq<char>| rule_of(l, suffixes, respect_port),
        ),
    decreases lines.len(),
{
    if lines.len() > 0 {
        lemma_rules_are_gathered(lines.drop_last(), suffixes, respect_port);
    }
}

/// An asset is in scope of the rule that is its own text, strictly or not, whatever other
/// rules there are. Written as a URL, an apex or a subdomain is too.
pub proof fn law_assets_match_their_own_text(
    lines: Seq<Seq<char>>,
    i: int,
    suffixes: Map<Seq<char>, bool>,
    respect_port: bool,
    strict: bool,
)
    requires
        0 <= i < lines.len(),
        ({
            let raw = trimmed(lines[i], CharClass::Whitespace);
            let a = asset_of_input(raw, suffixes);
            &&& !(a.kind is Garbage)
            &&& has_substring(raw, "://"@) ==> a.kind is Apex || a.kind is Subdomain
        }),
    ensures
        ({
            let raw = trimmed(lines[i], CharClass::Whitespace);
            let a = asset_of_input(raw, suffixes);
            some_hit(
                rules_of(lines, suffixes, respect_port),
                raw,
                a,
                scope_host(a, respect_port),
                strict,
            )
        }),
{
    let raw = trimmed(lines[i], CharClass::Whitespace);
    let a = asset_of_input(raw, suffixes);
    let n = normal_form(raw);
    law_kind_decides_fields(n, registrable_form(registrable_part(suffixes, domain_base(n))));
    crate::text::lemma_trimmed(lines[i], CharClass::Whitespace);
    crate::text::lemma_unchanged_by_trim(raw, CharClass::Whitespace);
    if raw.len() == 0 || raw[0] == '#' {
        lemma_comments_are_garbage(raw, suffixes);
    }
    let r = rule_of(lines[i], suffixes, respect_port)->0;
    lemma_rules_are_gathered(lines, suffixes, respect_port);
    lemma_gathered(lines, |l: Seq<char>| rule_of(l, suffixes, respect_port), i, r);
    let all = rules_of(lines, suffixes, respect_port);
    let j = choose|j: int| 0 <= j < all.len() && all[j] == r;
    assert(hits(all[j], a, scope_host(a, respect_port), strict));
}

/// Every rule that is compiled is a line that stands for an asset, and no line that is blank,
/// a comment or no asset becomes a rule.
pub proof fn law_rules_come_from_lines(
    lines: Seq<Seq<char>>,
    suffixes: Map<Seq<char>, bool>,
    respect_port: bool,
)
    ensures
        rules_of(lines, suffixes, respect_port).len() <= lines.len(),
        forall|j: int|
            0 <= j < rules_of(lines, suffixes, respect_port).len() ==> ({
                let r = #[trigger] rules_of(lines, suffixes, respect_port)[j];
                let a = asset_of_input(r.raw, suffixes);
                &&& r.raw.len() > 0 && r.raw[0] != '#'
                &&& lines.map_values(|l: Seq<char>| trimmed(l, CharClass::Whitespace)).contains(
                    r.raw,
                )
                &&& !(a.kind is Garbage)
                &&& r.canonical == scope_host(a, respect_port)
                &&& r.registrable == a.registrable
                &&& has_substring(r.raw, "://"@) <==> r.kind is Url
                &&& !(r.kind is Url) ==> (r.kind is Apex <==> a.kind is Apex) && (r.kind is Subdomain
                    <==> a.kind is Subdomain) && (r.kind is Wildcard <==> a.kind is Wildcard) && (
                r.kind is Ip <==> a.kind is Ip)
            }),
    decreases lines.len(),
{
    let f = |l: Seq<char>| trimmed(l, CharClass::Whitespace);
    let all = rules_of(lines, suffixes, respect_port);
    if lines.len() > 0 {
        let w = lines.drop_last();
        law_rules_come_from_lines(w, suffixes, respect_port);
        let rest = rules_of(w, suffixes, respect_port);
        assert forall|t: Seq<char>| w.map_values(f).contains(t) implies lines.map_values(
            f,
        ).contains(t) by {
            let i = choose|i: int| 0 <= i < w.len() && w.map_values(f)[i] == t;
            assert(lines.map_values(f)[i] == t);
        }
        assert(lines.map_values(f)[lines.len() - 1] == f(lines.last()));
        assert forall|j: int| 0 <= j < all.len() implies ({
            let r = #[trigger] all[j];
            let a = asset_of_input(r.raw, suffixes);
            &&& r.raw.len() > 0 && r.raw[0] != '#'
            &&& lines.map_values(f).contains(r.raw)
            &&& !(a.kind is Garbage)
            &&& r.canonical == scope_host(a, respect_port)
            &&& r.registrable == a.registrable
            &&& has_substring(r.raw, "://"@) <==> r.kind is Url
            &&& !(r.kind is Url) ==> (r.kind is Apex <==> a.kind is Apex) && (r.kind is Subdomain
                <==> a.kind is Subdomain) && (r.kind is Wildcard <==> a.kind is Wildcard) && (
            r.kind is Ip <==> a.kind is Ip)
        }) by {
            if j < rest.len() {
                assert(all[j] == rest[j]);
            }
        }
    }
}

/// What follows a dot of a host is what the host ends with behind a dot.
proof fn lemma_parent_is_end(parent: Seq<char>, host: Seq<char>)
    ensures
        is_parent(parent, host) <==> (seq!['.'] + parent).is_suffix_of(host),
{
    let p = seq!['.'] + parent;
    if is_parent(parent, host) {
        let i = choose|i: int|
            0 <= i < host.len() && #[trigger] host[i] == '.' && host.skip(i + 1) == parent;
        assert(host.subrange(i, host.len() as int) =~= p);
        assert(p.len() == host.len() - i);
    }
    if p.is_suffix_of(host) {
        let i = host.len() - p.len();
        assert(host.subrange(i, host.len() as int) == p);
        assert(host[i] == p[0]);
        assert forall|k: int| 0 <= k < parent.len() implies host.skip(i + 1)[k] == #[trigger] parent[k] by {
            assert(host.subrange(i, host.len() as int)[k + 1] == p[k + 1]);
        }
        assert(host.skip(i + 1) =~= parent);
    }
}

/// Whom a rule reaches. A rule with the text of the asset's host reaches the asset itself.
/// Loosely, a rule for a name also reaches every subdomain that ends with a dot and that
/// name. Strictly, only a wildcard reaches further than its own text: the subdomains that it
/// covers. Garbage is never reached, an address only as itself, and an apex or a wildcard
/// only as itself.
pub proof fn law_whom_a_rule_reaches(
    rule: RuleView,
    a: AssetView,
    host: Seq<char>,
    strict: bool,
)
    ensures
        ({
            let same = rule.canonical == host;
            let below = (seq!['.'] + rule.canonical).is_suffix_of(host);
            let named = rule.kind is Apex || rule.kind is Subdomain || rule.kind is Url;
            let hit = hits(rule, a, host, strict);
            &&& hit ==> !(a.kind is Garbage)
            &&& hit && !same ==> a.kind is Subdomain
            &&& hit && !same && strict ==> rule.kind is Wildcard
            &&& hit && rule.kind is Wildcard && a.kind is Subdomain ==> covers(rule.canonical, host)
            &&& hit && rule.kind is Wildcard ==> a.registrable is Some && rule.registrable
                == a.registrable
            &&& hit && !same && !(rule.kind is Wildcard) ==> below
            &&& a.kind is Subdomain && named && below && !strict ==> hit
            &&& a.kind is Subdomain && named && below && strict && !same ==> !hit
            &&& a.kind is Subdomain && a.registrable is Some && rule.kind is Wildcard
                && rule.registrable == a.registrable && covers(rule.canonical, host) ==> hit
            &&& a.kind is Apex && same ==> (hit <==> rule.kind is Apex || rule.kind is Url)
            &&& a.kind is Subdomain && same && (rule.kind is Subdomain || rule.kind is Url) ==> hit
            &&& a.kind is Ip ==> (hit <==> rule.kind is Ip && same)
            &&& a.kind is Wildcard && hit ==> rule.kind is Wildcard && same
        }),
{
    lemma_parent_is_end(rule.canonical, host);
}

/// Unless ports count, the port of an asset makes no difference to what it is compared as;
/// if they do, it is compared with its port.
pub proof fn law_ports_count_if_asked(
    n: NormalizedView,
    port: Option<u16>,
    registrable: Option<Seq<char>>,
)
    requires
        !(classified(n, registrable).kind is Garbage),
    ensures
        ({
            let a = classified(n, registrable);
            let b = classified(NormalizedView { port, ..n }, registrable);
            &&& scope_host(a, false) == scope_host(b, false)
            &&& n.port is None ==> scope_host(a, false) == a.canonical
            &&& scope_host(a, true) == a.canonical
        }),
{
    law_canonical_form_without_port_is_host(n, registrable);
    law_canonical_form_without_port_is_host(NormalizedView { port, ..n }, registrable);
}

} // verus!

//! Semantic deduplication and wildcard-coverage annotation.

use vstd::hash_map::StringHashMap;
use vstd::prelude::*;
use vstd::slice::slice_subrange;

use crate::classify::{
    asset_of_input, classified, domain_base, law_kind_decides_fields, lemma_well_formed_chars,
    registrable_form, wildcard_base,
};
use crate::ip::{add_ips, ip_value, lemma_address_text, IpAddr};
use crate::lists::{
    add_unique, all_added, is_sorted_set, lemma_all_added, places, sort_texts, sorted_texts, Groups,
};
use crate::model::{views, Asset, AssetKind, AssetView};
use crate::normalize::{normal_form, NormalizedView};
use crate::numbers::{decimal, lemma_decimal, number};
use crate::psl::registrable_part;
use crate::text::{
    chars_of, ends_with, has_any, is_lower, last_index, last_occurrence, lemma_found_last,
    lemma_index_is, lemma_last_index_is, lemma_lowered, lemma_unchanged_by_trim, lowered, occurs_at,
    rfind, rfind_text, starts_with, string_of, to_lower, trim, trim_start, trimmed, without_leading,
    CharClass,
};

verus! {

/// The canonical form of an asset without its port.
pub open spec fn bare_host(a: AssetView) -> Seq<char> {
    let c = a.canonical;
    match a.port {
        None => c,
        Some(_) => if c.len() > 0 && c[0] == '[' {
            match last_occurrence(c, "]:"@) {
                Some(i) => without_leading(c.take(i), CharClass::Is('[')),
                None => c,
            }
        } else {
            let i = last_index(c, CharClass::Is(':'));
            if i >= 0 {
                c.take(i)
            } else {
                c
            }
        },
    }
}

/// The canonical form of an asset without its port.
pub fn host_without_port(asset: &Asset) -> (r: String)
    ensures
        r@ == bare_host(asset@),
{
    if asset.port.is_none() {
        return asset.canonical.clone();
    }
    let c = chars_of(asset.canonical.as_str());
    let n: usize = c.len();
    proof {
        reveal_strlit("]:");
    }
    if n > 0 && c[0] == '[' {
        match rfind_text(c.as_slice(), "]:") {
            Some(i) => {
                let head = slice_subrange(c.as_slice(), 0, i);
                assert(head@ =~= c@.take(i as int));
                string_of(trim_start(head, CharClass::Is('[')))
            },
            None => asset.canonical.clone(),
        }
    } else {
        match rfind(c.as_slice(), CharClass::Is(':')) {
            Some(i) => {
                let head = slice_subrange(c.as_slice(), 0, i);
                assert(head@ =~= c@.take(i as int));
                string_of(head)
            },
            None => asset.canonical.clone(),
        }
    }
}

/// Whether a wildcard expression covers a host: the host lies strictly below the
/// domain behind `*.`.
pub open spec fn covers(wildcard: Seq<char>, host: Seq<char>) -> bool {
    let w = trimmed(lowered(wildcard), CharClass::Is('.'));
    let h = trimmed(lowered(host), CharClass::Is('.'));
    "*."@.is_prefix_of(w) && (seq!['.'] + w.skip(2)).is_suffix_of(h)
}

/// Tests whether `host` lies strictly below the domain of the wildcard expression:
/// `api.example.com` is covered by `*.example.com`, `example.com` is not.
pub fn is_covered_by_wildcard(host: &str, wildcard: &str) -> (r: bool)
    ensures
        r == covers(wildcard@, host@),
{
    let h_all = to_lower(chars_of(host).as_slice());
    let h = trim(h_all.as_slice(), CharClass::Is('.'));
    let w_all = to_lower(chars_of(wildcard).as_slice());
    let w = trim(w_all.as_slice(), CharClass::Is('.'));
    if !starts_with(w, "*.") {
        return false;
    }
    proof {
        reveal_strlit("*.");
    }
    let below = slice_subrange(w, 1, w.len());
    assert("*."@ == w@.subrange(0, 2));
    assert(w@[1] == "*."@[1]);
    assert(below@ =~= seq!['.'] + w@.skip(2));
    ends_with(h, below)
}

// ---------------------------------------------------------------------------
// Merging

/// The record that two records of one asset make: what the first leaves open is
/// taken from the second, and lists are united. Only garbage can leave the port open: in
/// any other kind it is part of the key.
pub open spec fn united(a: AssetView, b: AssetView) -> AssetView {
    AssetView {
        covered_by: sorted_texts(all_added(a.covered_by, b.covered_by)),
        scheme: if a.scheme is None {
            b.scheme
        } else {
            a.scheme
        },
        port: if a.port is None && a.kind is Garbage {
            b.port
        } else {
            a.port
        },
        registrable: if a.registrable is None {
            b.registrable
        } else {
            a.registrable
        },
        cnames: if a.cnames.len() == 0 {
            b.cnames
        } else {
            a.cnames
        },
        ips: all_added(a.ips, b.ips),
        ..a
    }
}

/// The place of the first record with a key at or after `i`, or the length.
pub open spec fn place(m: Seq<AssetView>, key: Seq<char>, i: int) -> int
    decreases m.len() - i,
{
    if i >= m.len() {
        m.len() as int
    } else if m[i].key() == key {
        i
    } else {
        place(m, key, i + 1)
    }
}

/// The list with one more record: it is united with the record that has its key, or
/// else put at the end.
pub open spec fn with_record(m: Seq<AssetView>, r: AssetView) -> Seq<AssetView> {
    let i = place(m, r.key(), 0);
    if i < m.len() {
        m.update(i, united(m[i], r))
    } else {
        m.push(r)
    }
}

/// The records united by key, in the order in which the keys first occur.
pub open spec fn merged(records: Seq<AssetView>) -> Seq<AssetView>
    decreases records.len(),
{
    if records.len() == 0 {
        Seq::empty()
    } else {
        with_record(merged(records.drop_last()), records.last())
    }
}

/// Whether no key occurs twice.
pub open spec fn distinct_keys(m: Seq<AssetView>) -> bool {
    forall|i: int, j: int|
        0 <= i < j < m.len() ==> (#[trigger] m[i]).key() != (#[trigger] m[j]).key()
}

/// What `place` finds.
pub proof fn lemma_place(m: Seq<AssetView>, key: Seq<char>, i: int)
    requires
        0 <= i <= m.len(),
    ensures
        i <= place(m, key, i) <= m.len(),
        place(m, key, i) < m.len() ==> m[place(m, key, i)].key() == key,
        forall|j: int| i <= j < place(m, key, i) ==> (#[trigger] m[j]).key() != key,
    decreases m.len() - i,
{
    if i < m.len() && m[i].key() != key {
        lemma_place(m, key, i + 1);
    }
}

fn merge_into(target: &mut Asset, incoming: Asset)
    ensures
        final(target)@ == united(old(target)@, incoming@),
{
    let mut i: usize = 0;
    while i < incoming.covered_by.len()
        invariant
            i <= incoming.covered_by@.len(),
            target@ == (AssetView {
                covered_by: all_added(
                    old(target)@.covered_by,
                    incoming@.covered_by.take(i as int),
                ),
                ..old(target)@
            }),
        decreases incoming.covered_by.len() - i,
    {
        add_unique(&mut target.covered_by, incoming.covered_by[i].clone());
        assert(incoming@.covered_by.take(i + 1).drop_last() =~= incoming@.covered_by.take(
            i as int,
        ));
        i += 1;
    }
    assert(incoming@.covered_by.take(i as int) =~= incoming@.covered_by);
    target.covered_by = sort_texts(&target.covered_by);
    if target.scheme.is_none() {
        target.scheme = incoming.scheme;
    }
    if target.port.is_none() && target.kind == AssetKind::Garbage {
        target.port = incoming.port;
    }
    if target.registrable.is_none() {
        target.registrable = incoming.registrable;
    }
    if target.cnames.len() == 0 {
        target.cnames = incoming.cnames;
    }
    add_ips(&mut target.ips, &incoming.ips);
}

fn merge_records(records: Vec<Asset>) -> (r: Vec<Asset>)
    ensures
        views(r@) == merged(views(records@)),
{
    let mut out: Vec<Asset> = Vec::new();
    let mut index: StringHashMap<usize> = StringHashMap::new();
    let ghost all = views(records@);
    assert(views(out@) =~= merged(all.take(0)));
    for record in it: records
        invariant
            it.seq() == records@,
            all == views(records@),
            views(out@) == merged(all.take(it.index() as int)),
            forall|k: Seq<char>| #[trigger]
                index@.contains_key(k) ==> index@[k] < out@.len() && out@[index@[k] as int]@.key()
                    == k,
            forall|j: int|
                0 <= j < out@.len() ==> index@.contains_key((#[trigger] out@[j])@.key())
                    && index@[out@[j]@.key()] == j,
    {
        let ghost before = views(out@);
        let ghost old_out = out@;
        let ghost rec = record@;
        let key = record.canonical_key();
        proof {
            assert(all.take(it.index() + 1).drop_last() =~= all.take(it.index() as int));
            assert(all.take(it.index() + 1).last() == rec);
            lemma_place(before, key@, 0);
            let p = place(before, key@, 0);
            if p < before.len() {
                assert(old_out[p]@ == before[p]);
            }
        }
        let found: Option<usize> = match index.get(key.as_str()) {
            Some(j) => Some(*j),
            None => None,
        };
        match found {
            Some(j) => {
                assert(before[j as int] == old_out[j as int]@);
                merge_into(&mut out[j], record);
                assert(views(out@) =~= before.update(j as int, united(before[j as int], rec)));
                assert forall|i: int| 0 <= i < out@.len() implies index@.contains_key(
                    (#[trigger] out@[i])@.key(),
                ) && index@[out@[i]@.key()] == i by {
                    assert(out@[i]@.key() == old_out[i]@.key());
                }
                assert forall|k: Seq<char>| #[trigger] index@.contains_key(k) implies index@[k]
                    < out@.len() && out@[index@[k] as int]@.key() == k by {
                    assert(out@[index@[k] as int]@.key() == old_out[index@[k] as int]@.key());
                }
            },
            None => {
                let place: usize = out.len();
                index.insert(key, place);
                out.push(record);
                assert(views(out@) =~= before.push(rec));
            },
        }
    }
    assert(all.take(all.len() as int) =~= all);
    out
}

// ---------------------------------------------------------------------------
// Coverage

/// Whether a record is a wildcard with a registrable domain.
pub open spec fn is_wildcard_rule(a: AssetView) -> bool {
    a.kind is Wildcard && a.registrable is Some
}

/// The places below `i` of the wildcards under a registrable domain.
pub open spec fn wildcards_under(m: Seq<AssetView>, registrable: Seq<char>, i: int) -> Seq<int>
    decreases i,
{
    if i <= 0 {
        Seq::empty()
    } else if is_wildcard_rule(m[i - 1]) && m[i - 1].registrable == Some(registrable) {
        wildcards_under(m, registrable, i - 1).push(i - 1)
    } else {
        wildcards_under(m, registrable, i - 1)
    }
}

/// The key of the last wildcard below place `i` with the given host.
pub open spec fn wildcard_key(m: Seq<AssetView>, host: Seq<char>, i: int) -> Option<Seq<char>>
    decreases i,
{
    if i <= 0 {
        None
    } else if is_wildcard_rule(m[i - 1]) && bare_host(m[i - 1]) == host {
        Some(m[i - 1].key())
    } else {
        wildcard_key(m, host, i - 1)
    }
}

/// The keys of those wildcards among `at` that cover a host.
pub open spec fn covering_keys(m: Seq<AssetView>, host: Seq<char>, at: Seq<int>) -> Seq<Seq<char>>
    decreases at.len(),
{
    if at.len() == 0 {
        Seq::empty()
    } else {
        let w = bare_host(m[at.last()]);
        let keys = covering_keys(m, host, at.drop_last());
        if covers(w, host) {
            keys.push(wildcard_key(m, w, m.len() as int)->0)
        } else {
            keys
        }
    }
}

/// A record with the keys of the wildcards of `m` that cover it, sorted. Only an
/// apex or a subdomain with wildcards under its registrable domain changes.
pub open spec fn annotated(a: AssetView, m: Seq<AssetView>) -> AssetView {
    if (a.kind is Apex || a.kind is Subdomain) && a.registrable is Some {
        let at = wildcards_under(m, a.registrable->0, m.len() as int);
        if at.len() == 0 {
            a
        } else {
            AssetView {
                covered_by: sorted_texts(
                    all_added(a.covered_by, covering_keys(m, bare_host(a), at)),
                ),
                ..a
            }
        }
    } else {
        a
    }
}

/// The deduplicated records.
pub open spec fn deduped(records: Seq<AssetView>) -> Seq<AssetView> {
    let m = merged(records);
    m.map_values(|a: AssetView| annotated(a, m))
}

/// The wildcards of a list, by registrable domain and by host.
struct WildcardIndex {
    by_domain: Groups,
    keys: StringHashMap<String>,
}

impl WildcardIndex {
    spec fn indexes(self, m: Seq<AssetView>, n: int) -> bool {
        &&& self.by_domain.wf()
        &&& forall|d: Seq<char>| #[trigger] self.by_domain.at(d) == wildcards_under(m, d, n)
        &&& forall|h: Seq<char>| #[trigger]
            self.keys@.contains_key(h) <==> wildcard_key(m, h, n) is Some
        &&& forall|h: Seq<char>| #[trigger]
            self.keys@.contains_key(h) ==> wildcard_key(m, h, n) == Some(self.keys@[h]@)
    }

    fn build(assets: &Vec<Asset>) -> (r: Self)
        ensures
            r.indexes(views(assets@), assets@.len() as int),
    {
        let ghost m = views(assets@);
        let mut index = WildcardIndex { by_domain: Groups::new(), keys: StringHashMap::new() };
        let mut i: usize = 0;
        while i < assets.len()
            invariant
                i <= assets@.len(),
                m == views(assets@),
                index.indexes(m, i as int),
            decreases assets.len() - i,
        {
            let a = &assets[i];
            let ghost before = index;
            assert(m[i as int] == a@);
            if a.kind == AssetKind::Wildcard {
                if let Some(d) = &a.registrable {
                    index.by_domain.add(d.as_str(), i);
                    index.keys.insert(host_without_port(a), a.canonical_key());
                    proof {
                        assert forall|e: Seq<char>| #[trigger]
                            index.by_domain.at(e) == wildcards_under(m, e, i + 1) by {
                            assert(before.by_domain.at(e) == wildcards_under(m, e, i as int));
                        }
                        assert forall|h: Seq<char>| #[trigger]
                            index.keys@.contains_key(h) <==> wildcard_key(m, h, i + 1) is Some by {
                            assert(h != bare_host(a@) ==> before.keys@.contains_key(h)
                                == index.keys@.contains_key(h));
                        }
                        assert forall|h: Seq<char>| #[trigger]
                            index.keys@.contains_key(h) implies wildcard_key(m, h, i + 1) == Some(
                            index.keys@[h]@,
                        ) by {
                            assert(h != bare_host(a@) ==> before.keys@.contains_key(h));
                        }
                    }
                }
            }
            assert(index.indexes(m, i + 1));
            i += 1;
        }
        index
    }
}

proof fn lemma_wildcards_under(m: Seq<AssetView>, d: Seq<char>, i: int)
    requires
        0 <= i <= m.len(),
    ensures
        forall|n: int|
            0 <= n < wildcards_under(m, d, i).len() ==> 0 <= (#[trigger] wildcards_under(m, d, i)[n])
                < i && is_wildcard_rule(m[wildcards_under(m, d, i)[n]]),
    decreases i,
{
    if i > 0 {
        lemma_wildcards_under(m, d, i - 1);
        let u = wildcards_under(m, d, i - 1);
        let v = wildcards_under(m, d, i);
        assert forall|n: int| 0 <= n < v.len() implies 0 <= (#[trigger] v[n]) < i
            && is_wildcard_rule(m[v[n]]) by {
            if n < u.len() {
                assert(v[n] == u[n]);
            }
        }
    }
}

proof fn lemma_wildcard_key(m: Seq<AssetView>, j: int, i: int)
    requires
        0 <= j < i <= m.len(),
        is_wildcard_rule(m[j]),
    ensures
        wildcard_key(m, bare_host(m[j]), i) is Some,
    decreases i,
{
    if j < i - 1 {
        lemma_wildcard_key(m, j, i - 1);
    }
}

fn annotate(asset: &mut Asset, index: &WildcardIndex, hosts: &Vec<String>, Ghost(m): Ghost<Seq<AssetView>>)
    requires
        index.indexes(m, m.len() as int),
        hosts@.len() == m.len(),
        forall|i: int| 0 <= i < m.len() ==> (#[trigger] hosts@[i])@ == bare_host(m[i]),
    ensures
        final(asset)@ == annotated(old(asset)@, m),
{
    if asset.kind != AssetKind::Apex && asset.kind != AssetKind::Subdomain {
        return;
    }
    let found = match &asset.registrable {
        Some(d) => index.by_domain.get(d.as_str()),
        None => None,
    };
    let ghost d = asset@.registrable->0;
    let ghost at = wildcards_under(m, d, m.len() as int);
    let ghost before = asset@;
    assert(index.by_domain.at(d) == at);
    let wildcards = match found {
        Some(v) => v,
        None => {
            return;
        },
    };
    let host = host_without_port(asset);
    proof {
        lemma_wildcards_under(m, d, m.len() as int);
    }
    let mut i: usize = 0;
    while i < wildcards.len()
        invariant
            i <= wildcards@.len(),
            places(wildcards@) == at,
            host@ == bare_host(before),
            forall|n: int|
                0 <= n < at.len() ==> 0 <= (#[trigger] at[n]) < m.len() && is_wildcard_rule(
                    m[at[n]],
                ),
            index.indexes(m, m.len() as int),
            hosts@.len() == m.len(),
            forall|i: int| 0 <= i < m.len() ==> (#[trigger] hosts@[i])@ == bare_host(m[i]),
            asset@ == (AssetView {
                covered_by: all_added(
                    before.covered_by,
                    covering_keys(m, host@, at.take(i as int)),
                ),
                ..before
            }),
        decreases wildcards.len() - i,
    {
        assert(at[i as int] == wildcards@[i as int]);
        assert(at.take(i + 1).drop_last() =~= at.take(i as int));
        assert(at.take(i + 1).last() == at[i as int]);
        let wildcard = &hosts[wildcards[i]];
        let ghost keys = covering_keys(m, host@, at.take(i as int));
        if is_covered_by_wildcard(host.as_str(), wildcard.as_str()) {
            proof {
                lemma_wildcard_key(m, at[i as int], m.len() as int);
                assert(index.keys@.contains_key(wildcard@));
            }
            if let Some(key) = index.keys.get(wildcard.as_str()) {
                add_unique(&mut asset.covered_by, key.clone());
                assert(keys.push(key@).drop_last() =~= keys);
            }
        }
        i += 1;
    }
    assert(at.take(i as int) =~= at);
    asset.covered_by = sort_texts(&asset.covered_by);
}

/// Merges assets by canonical key and annotates wildcard coverage.
pub fn dedupe(records: Vec<Asset>) -> (r: Vec<Asset>)
    ensures
        views(r@) == deduped(views(records@)),
{
    let ghost input = views(records@);
    let mut out = merge_records(records);
    let ghost m = views(out@);
    let index = WildcardIndex::build(&out);
    let mut hosts: Vec<String> = Vec::new();
    let mut i: usize = 0;
    while i < out.len()
        invariant
            i <= out@.len(),
            m == views(out@),
            hosts@.len() == i,
            forall|j: int| 0 <= j < i ==> (#[trigger] hosts@[j])@ == bare_host(m[j]),
        decreases out.len() - i,
    {
        hosts.push(host_without_port(&out[i]));
        i += 1;
    }
    let mut i: usize = 0;
    while i < out.len()
        invariant
            i <= out@.len(),
            out@.len() == m.len(),
            hosts@.len() == m.len(),
            forall|j: int| 0 <= j < m.len() ==> (#[trigger] hosts@[j])@ == bare_host(m[j]),
            index.indexes(m, m.len() as int),
            forall|j: int| 0 <= j < i ==> (#[trigger] out@[j])@ == annotated(m[j], m),
            forall|j: int| i <= j < m.len() ==> (#[trigger] out@[j])@ == m[j],
        decreases out.len() - i,
    {
        annotate(&mut out[i], &index, &hosts, Ghost(m));
        i += 1;
    }
    assert(views(out@) =~= deduped(input));
    out
}

// ---------------------------------------------------------------------------
// Laws

proof fn lemma_with_record(m: Seq<AssetView>, r: AssetView)
    requires
        distinct_keys(m),
    ensures
        distinct_keys(with_record(m, r)),
        forall|j: int|
            0 <= j < m.len() ==> (#[trigger] with_record(m, r)[j]).key() == m[j].key(),
        with_record(m, r).len() >= m.len(),
        exists|j: int|
            0 <= j < with_record(m, r).len() && (#[trigger] with_record(m, r)[j]).key() == r.key(),
        forall|j: int|
            m.len() <= j < with_record(m, r).len() ==> (#[trigger] with_record(m, r)[j]).key()
                == r.key(),
{
    lemma_place(m, r.key(), 0);
    let i = place(m, r.key(), 0);
    let w = with_record(m, r);
    if i < m.len() {
        assert(w[i].key() == r.key());
        assert forall|a: int, b: int| 0 <= a < b < w.len() implies (#[trigger] w[a]).key() != (
        #[trigger] w[b]).key() by {
            assert(w[a].key() == m[a].key());
            assert(w[b].key() == m[b].key());
        }
    } else {
        assert(w[m.len() as int].key() == r.key());
    }
}

proof fn lemma_merged(records: Seq<AssetView>)
    ensures
        distinct_keys(merged(records)),
        forall|i: int|
            0 <= i < records.len() ==> has_key(merged(records), (#[trigger] records[i]).key()),
        forall|j: int|
            0 <= j < merged(records).len() ==> has_key(
                records,
                (#[trigger] merged(records)[j]).key(),
            ),
    decreases records.len(),
{
    if records.len() > 0 {
        let rest = records.drop_last();
        let r = records.last();
        let m = merged(rest);
        let w = merged(records);
        lemma_merged(rest);
        lemma_with_record(m, r);
        assert forall|i: int| 0 <= i < records.len() implies has_key(
            w,
            (#[trigger] records[i]).key(),
        ) by {
            if i < rest.len() {
                assert(rest[i] == records[i]);
                assert(has_key(m, rest[i].key()));
                let j = choose|j: int| 0 <= j < m.len() && (#[trigger] m[j]).key() == rest[i].key();
                assert(w[j].key() == records[i].key());
            } else {
                let j = choose|j: int| 0 <= j < w.len() && (#[trigger] w[j]).key() == r.key();
                assert(w[j].key() == records[i].key());
            }
        }
        assert forall|j: int| 0 <= j < w.len() implies has_key(
            records,
            (#[trigger] w[j]).key(),
        ) by {
            if j < m.len() {
                assert(has_key(rest, m[j].key()));
                let i = choose|i: int| 0 <= i < rest.len() && (#[trigger] rest[i]).key() == m[j].key();
                assert(records[i].key() == w[j].key());
            } else {
                assert(records[records.len() - 1].key() == w[j].key());
            }
        }
    }
}

/// Whether some record of a list has a key.
pub open spec fn has_key(m: Seq<AssetView>, key: Seq<char>) -> bool {
    exists|i: int| 0 <= i < m.len() && (#[trigger] m[i]).key() == key
}

/// Deduplication leaves one record for each key of the input, and no other.
pub proof fn law_one_record_per_key(records: Seq<AssetView>)
    ensures
        distinct_keys(deduped(records)),
        forall|key: Seq<char>| #[trigger] has_key(deduped(records), key) <==> has_key(records, key),
{
    lemma_merged(records);
    let m = merged(records);
    let d = deduped(records);
    assert forall|i: int, j: int| 0 <= i < j < d.len() implies (#[trigger] d[i]).key() != (
    #[trigger] d[j]).key() by {
        assert(d[i].key() == m[i].key());
        assert(d[j].key() == m[j].key());
    }
    assert forall|key: Seq<char>| #[trigger] has_key(d, key) <==> has_key(records, key) by {
        if has_key(d, key) {
            let i = choose|i: int| 0 <= i < d.len() && (#[trigger] d[i]).key() == key;
            assert(m[i].key() == key);
        }
        if has_key(records, key) {
            let i = choose|i: int| 0 <= i < records.len() && (#[trigger] records[i]).key() == key;
            assert(has_key(m, records[i].key()));
            let j = choose|j: int| 0 <= j < m.len() && (#[trigger] m[j]).key() == key;
            assert(d[j].key() == key);
        }
    }
}

proof fn lemma_merged_distinct(s: Seq<AssetView>)
    requires
        distinct_keys(s),
    ensures
        merged(s) == s,
    decreases s.len(),
{
    if s.len() > 0 {
        let rest = s.drop_last();
        assert(distinct_keys(rest)) by {
            assert forall|i: int, j: int| 0 <= i < j < rest.len() implies (#[trigger] rest[i]).key()
                != (#[trigger] rest[j]).key() by {
                assert(rest[i] == s[i] && rest[j] == s[j]);
            }
        }
        lemma_merged_distinct(rest);
        let p = place(rest, s.last().key(), 0);
        lemma_place(rest, s.last().key(), 0);
        if p < rest.len() {
            assert(rest[p] == s[p]);
            assert(s[p].key() != s[s.len() - 1].key());
        }
        assert(rest.push(s.last()) =~= s);
    } else {
        assert(merged(s) =~= s);
    }
}

proof fn lemma_same_wildcards(m: Seq<AssetView>, d: Seq<AssetView>, name: Seq<char>, i: int)
    requires
        0 <= i <= m.len(),
        d.len() == m.len(),
        forall|j: int|
            0 <= j < m.len() ==> (#[trigger] d[j]) == (AssetView {
                covered_by: d[j].covered_by,
                ..m[j]
            }),
    ensures
        wildcards_under(d, name, i) == wildcards_under(m, name, i),
        wildcard_key(d, name, i) == wildcard_key(m, name, i),
    decreases i,
{
    if i > 0 {
        lemma_same_wildcards(m, d, name, i - 1);
        assert(d[i - 1] == (AssetView { covered_by: d[i - 1].covered_by, ..m[i - 1] }));
    }
}

proof fn lemma_same_covering(m: Seq<AssetView>, d: Seq<AssetView>, host: Seq<char>, at: Seq<int>)
    requires
        d.len() == m.len(),
        forall|j: int|
            0 <= j < m.len() ==> (#[trigger] d[j]) == (AssetView {
                covered_by: d[j].covered_by,
                ..m[j]
            }),
        forall|n: int| 0 <= n < at.len() ==> 0 <= (#[trigger] at[n]) < m.len(),
    ensures
        covering_keys(d, host, at) == covering_keys(m, host, at),
    decreases at.len(),
{
    if at.len() > 0 {
        assert forall|n: int| 0 <= n < at.drop_last().len() implies 0 <= (#[trigger] at.drop_last()[n])
            < m.len() by {
            assert(at.drop_last()[n] == at[n]);
        }
        lemma_same_covering(m, d, host, at.drop_last());
        let j = at[at.len() - 1];
        assert(d[j] == (AssetView { covered_by: d[j].covered_by, ..m[j] }));
        lemma_same_wildcards(m, d, bare_host(m[j]), m.len() as int);
    }
}

/// Deduplicating twice is deduplicating once.
pub proof fn law_dedupe_is_idempotent(records: Seq<AssetView>)
    ensures
        deduped(deduped(records)) == deduped(records),
{
    let m = merged(records);
    let d = deduped(records);
    law_one_record_per_key(records);
    lemma_merged_distinct(d);
    assert forall|i: int| 0 <= i < m.len() implies annotated(#[trigger] d[i], d) == d[i] by {
        let a = m[i];
        if (a.kind is Apex || a.kind is Subdomain) && a.registrable is Some {
            let name = a.registrable->0;
            let at = wildcards_under(m, name, m.len() as int);
            lemma_same_wildcards(m, d, name, m.len() as int);
            lemma_wildcards_under(m, name, m.len() as int);
            if at.len() > 0 {
                let host = bare_host(a);
                let keys = covering_keys(m, host, at);
                lemma_same_covering(m, d, host, at);
                let x = all_added(a.covered_by, keys);
                lemma_all_added(a.covered_by, keys);
                crate::lists::lemma_sorted_texts(x);
                let s = sorted_texts(x);
                assert forall|n: int| 0 <= n < keys.len() implies s.contains(#[trigger] keys[n]) by {
                    assert(keys.contains(keys[n]));
                    assert(x.contains(keys[n]));
                }
                crate::lists::lemma_nothing_added(s, keys);
            }
        }
    }
    assert(deduped(d) =~= d);
}

/// Whether a record is as classification leaves it, and without a port if it is a
/// wildcard.
spec fn untouched(a: AssetView) -> bool {
    &&& a.covered_by =~= Seq::empty()
    &&& a.kind is Apex || a.kind is Subdomain || a.kind is Wildcard ==> a.registrable is Some
    &&& a.kind is Wildcard ==> a.port is None
}

proof fn lemma_merged_untouched(records: Seq<AssetView>)
    requires
        forall|i: int| 0 <= i < records.len() ==> untouched(#[trigger] records[i]),
    ensures
        forall|i: int| 0 <= i < merged(records).len() ==> untouched(#[trigger] merged(records)[i]),
    decreases records.len(),
{
    if records.len() > 0 {
        let rest = records.drop_last();
        let r = records[records.len() - 1];
        assert forall|i: int| 0 <= i < rest.len() implies untouched(#[trigger] rest[i]) by {
            assert(rest[i] == records[i]);
        }
        lemma_merged_untouched(rest);
        let m = merged(rest);
        let w = merged(records);
        assert(untouched(r));
        lemma_place(m, r.key(), 0);
        assert forall|i: int| 0 <= i < w.len() implies untouched(#[trigger] w[i]) by {
            if i < m.len() {
                assert(untouched(m[i]));
                if w[i] != m[i] {
                    let x = all_added(m[i].covered_by, r.covered_by);
                    assert(x =~= Seq::empty());
                    crate::lists::lemma_sorted_texts(x);
                }
            }
        }
    }
}

proof fn lemma_key_of_wildcard(m: Seq<AssetView>, j: int, i: int)
    requires
        0 <= j < i <= m.len(),
        is_wildcard_rule(m[j]),
        forall|k: int| 0 <= k < m.len() ==> untouched(#[trigger] m[k]),
    ensures
        wildcard_key(m, bare_host(m[j]), i) == Some(m[j].key()),
    decreases i,
{
    assert(untouched(m[j]) && untouched(m[i - 1]));
    if j < i - 1 {
        lemma_key_of_wildcard(m, j, i - 1);
    }
}

/// Whether a wildcard of a list has a key, lies under a registrable domain and covers a
/// host.
pub open spec fn covered_under(
    m: Seq<AssetView>,
    registrable: Option<Seq<char>>,
    host: Seq<char>,
    key: Seq<char>,
) -> bool {
    exists|j: int|
        0 <= j < m.len() && (#[trigger] m[j]).kind is Wildcard && m[j].registrable == registrable
            && covers(m[j].canonical, host) && m[j].key() == key
}

proof fn lemma_covering_keys(m: Seq<AssetView>, d: Seq<char>, host: Seq<char>, i: int)
    requires
        0 <= i <= m.len(),
        forall|k: int| 0 <= k < m.len() ==> untouched(#[trigger] m[k]),
    ensures
        forall|key: Seq<char>| #[trigger]
            covering_keys(m, host, wildcards_under(m, d, i)).contains(key) <==> covered_under(
                m.take(i),
                Some(d),
                host,
                key,
            ),
    decreases i,
{
    if i > 0 {
        lemma_covering_keys(m, d, host, i - 1);
        let u = wildcards_under(m, d, i - 1);
        let v = wildcards_under(m, d, i);
        let before = covering_keys(m, host, u);
        let now = covering_keys(m, host, v);
        let a = m[i - 1];
        assert(untouched(a));
        if is_wildcard_rule(a) && a.registrable == Some(d) {
            lemma_key_of_wildcard(m, i - 1, m.len() as int);
            assert(v.drop_last() =~= u);
        }
        assert forall|key: Seq<char>| #[trigger]
            now.contains(key) <==> covered_under(m.take(i), Some(d), host, key) by {
            crate::lists::lemma_push_contains(before, a.key(), key);
            if covered_under(m.take(i - 1), Some(d), host, key) {
                let j = choose|j: int|
                    0 <= j < i - 1 && (#[trigger] m.take(i - 1)[j]).kind is Wildcard && m.take(
                        i - 1,
                    )[j].registrable == Some(d) && covers(m.take(i - 1)[j].canonical, host)
                        && m.take(i - 1)[j].key() == key;
                assert(m.take(i)[j] == m.take(i - 1)[j]);
            }
            if covered_under(m.take(i), Some(d), host, key) {
                let j = choose|j: int|
                    0 <= j < i && (#[trigger] m.take(i)[j]).kind is Wildcard && m.take(
                        i,
                    )[j].registrable == Some(d) && covers(m.take(i)[j].canonical, host) && m.take(
                        i,
                    )[j].key() == key;
                if j < i - 1 {
                    assert(m.take(i - 1)[j] == m.take(i)[j]);
                }
            }
            assert(m.take(i)[i - 1] == a);
        }
    }
}

/// Of classified inputs, without a port on a wildcard, an apex or a subdomain is listed as
/// covered by exactly those wildcards under its registrable domain that it lies below, in
/// order and each once. No other asset is covered by anything.
#[verifier::rlimit(40)]
pub proof fn law_coverage_is_complete(
    inputs: Seq<Seq<char>>,
    rules: Map<Seq<char>, bool>,
    records: Seq<AssetView>,
)
    requires
        records == inputs.map_values(|raw: Seq<char>| asset_of_input(raw, rules)),
        forall|i: int|
            0 <= i < records.len() ==> ((#[trigger] records[i]).kind is Wildcard ==> records[i].port
                is None),
    ensures
        forall|i: int|
            0 <= i < deduped(records).len() ==> ({
                let a = #[trigger] deduped(records)[i];
                if a.kind is Apex || a.kind is Subdomain {
                    is_sorted_set(a.covered_by) && forall|key: Seq<char>| #[trigger]
                        a.covered_by.contains(key) <==> covered_under(
                            deduped(records),
                            a.registrable,
                            bare_host(a),
                            key,
                        )
                } else {
                    a.covered_by == Seq::<Seq<char>>::empty()
                }
            }),
{
    assert forall|i: int| 0 <= i < records.len() implies untouched(#[trigger] records[i]) by {
        let n = normal_form(inputs[i]);
        law_kind_decides_fields(n, registrable_form(registrable_part(rules, domain_base(n))));
    }
    lemma_merged_untouched(records);
    let m = merged(records);
    let out = deduped(records);
    assert forall|i: int| 0 <= i < out.len() implies ({
        let a = #[trigger] out[i];
        if a.kind is Apex || a.kind is Subdomain {
            is_sorted_set(a.covered_by) && forall|key: Seq<char>| #[trigger]
                a.covered_by.contains(key) <==> covered_under(
                    out,
                    a.registrable,
                    bare_host(a),
                    key,
                )
        } else {
            a.covered_by == Seq::<Seq<char>>::empty()
        }
    }) by {
        let a = m[i];
        assert(untouched(a));
        assert(out[i] == annotated(a, m));
        if a.kind is Apex || a.kind is Subdomain {
            let d = a.registrable->0;
            let host = bare_host(a);
            let at = wildcards_under(m, d, m.len() as int);
            let keys = covering_keys(m, host, at);
            let x = all_added(a.covered_by, keys);
            lemma_covering_keys(m, d, host, m.len() as int);
            assert(m.take(m.len() as int) =~= m);
            lemma_all_added(a.covered_by, keys);
            crate::lists::lemma_sorted_texts(x);
            assert(x =~= all_added(Seq::empty(), keys));
            assert(at.len() == 0 ==> keys =~= Seq::empty() && x =~= Seq::empty());
            if at.len() == 0 {
                assert(out[i].covered_by =~= sorted_texts(x));
            }
            assert forall|key: Seq<char>| #[trigger]
                out[i].covered_by.contains(key) <==> covered_under(
                    out,
                    a.registrable,
                    host,
                    key,
                ) by {
                assert(keys.contains(key) <==> covered_under(m, Some(d), host, key));
                if covered_under(m, Some(d), host, key) {
                    let j = choose|j: int|
                        0 <= j < m.len() && (#[trigger] m[j]).kind is Wildcard && m[j].registrable
                            == Some(d) && covers(m[j].canonical, host) && m[j].key() == key;
                    assert(out[j] == annotated(m[j], m));
                }
                if covered_under(out, Some(d), host, key) {
                    let j = choose|j: int|
                        0 <= j < out.len() && (#[trigger] out[j]).kind is Wildcard
                            && out[j].registrable == Some(d) && covers(out[j].canonical, host)
                            && out[j].key() == key;
                    assert(out[j] == annotated(m[j], m));
                    assert(m[j].kind is Wildcard);
                }
            }
        }
    }
}

/// A wildcard covers only hosts strictly below its domain.
pub proof fn law_coverage_is_strict(wildcard: Seq<char>, host: Seq<char>)
    requires
        covers(wildcard, host),
    ensures
        trimmed(lowered(host), CharClass::Is('.')).len() > trimmed(
            lowered(wildcard),
            CharClass::Is('.'),
        ).skip(2).len(),
{
    reveal_strlit("*.");
}

proof fn lemma_port_after_host(host: Seq<char>, port: u16)
    requires
        host.len() > 0,
        host[0] != '[',
    ensures
        ({
            let c = host + seq![':'] + decimal(port as nat);
            &&& c[0] != '['
            &&& last_index(c, CharClass::Is(':')) == host.len()
            &&& c.take(host.len() as int) == host
        }),
{
    let d = decimal(port as nat);
    let c = host + seq![':'] + d;
    let n = host.len() as int;
    lemma_decimal(port as nat);
    assert forall|m: int| n < m < c.len() implies !CharClass::Is(':').has(#[trigger] c[m]) by {
        assert(c[m] == d[m - n - 1]);
        assert(CharClass::Digit.has(d[m - n - 1]));
    }
    lemma_last_index_is(c, CharClass::Is(':'), c.len() as int, n);
    assert(c.take(n) =~= host);
}

proof fn lemma_port_after_brackets(host: Seq<char>, port: u16)
    requires
        host.len() > 0,
        host[0] != '[',
    ensures
        ({
            let c = seq!['['] + host + seq![']', ':'] + decimal(port as nat);
            &&& last_occurrence(c, "]:"@) == Some(host.len() as int + 1)
            &&& without_leading(c.take(host.len() as int + 1), CharClass::Is('[')) == host
        }),
{
    reveal_strlit("]:");
    let d = decimal(port as nat);
    let c = seq!['['] + host + seq![']', ':'] + d;
    let n = host.len() as int + 1;
    let k = CharClass::Is('[');
    lemma_decimal(port as nat);
    assert(c.subrange(n, n + 2) =~= "]:"@);
    assert forall|m: int| n < m <= c.len() - 2 implies !#[trigger] occurs_at(c, "]:"@, m) by {
        if occurs_at(c, "]:"@, m) {
            assert(c.subrange(m, m + 2)[0] == c[m]);
            assert("]:"@[0] == ']');
            if m > n + 1 {
                assert(c[m] == d[m - n - 2]);
                assert(CharClass::Digit.has(d[m - n - 2]));
            }
        }
    }
    lemma_found_last(c, "]:"@, c.len() - 2, n);
    let head = c.take(n);
    assert(head =~= seq!['['] + host);
    assert(head[0] == '[' && head[1] == host[0]);
    assert(crate::text::past_from(head, k, 1) == 1);
    assert(crate::text::past_from(head, k, 0) == 1);
    assert(without_leading(head, k) =~= host);
}

/// Without its port, the canonical form of an asset is its host: the address, or the
/// name with its leading `*.` if it has one.
pub proof fn law_canonical_form_without_port_is_host(
    n: NormalizedView,
    registrable: Option<Seq<char>>,
)
    requires
        !(classified(n, registrable).kind is Garbage),
    ensures
        bare_host(classified(n, registrable)) == (if classified(n, registrable).kind is Ip {
            ip_value(trimmed(n.host, CharClass::Whitespace))->0.text()
        } else {
            trimmed(n.host, CharClass::Whitespace)
        }),
{
    let a = classified(n, registrable);
    let host = trimmed(n.host, CharClass::Whitespace);
    if let Some(p) = n.port {
        if a.kind is Ip {
            let ip = ip_value(host)->0;
            let x = ip.text();
            lemma_address_text(ip);
            assert(CharClass::HexDigit.has(x[0]) || x[0] == ':' || x[0] == '.');
            reveal_strlit("*.");
            if "*."@.is_prefix_of(x) {
                assert(x.subrange(0, 2)[0] == x[0]);
            }
            if ip is V6 {
                lemma_port_after_brackets(x, p);
            } else {
                lemma_port_after_host(x, p);
            }
        } else {
            reveal_strlit("*.");
            lemma_well_formed_chars(host);
            let base = wildcard_base(host);
            if "*."@.is_prefix_of(host) {
                assert(host.subrange(0, 2) == "*."@);
                assert(host[0] == "*."@[0]);
                assert(!has_any(host, CharClass::Is(':')) || "*."@.is_prefix_of(host));
            } else {
                assert(!has_any(host, CharClass::Is(':'))) by {
                    assert forall|i: int| 0 <= i < host.len() implies !CharClass::Is(':').has(
                        #[trigger] host[i],
                    ) by {
                        assert(CharClass::LabelInside.has(base[i]) || base[i] == '.');
                    }
                }
                assert(CharClass::LabelInside.has(base[0]) || base[0] == '.');
            }
            lemma_port_after_host(host, p);
        }
    }
}

/// Whether a name has no dot at either end.
pub open spec fn undotted(name: Seq<char>) -> bool {
    name.len() > 0 && name[0] != '.' && name.last() != '.'
}

/// A wildcard covers exactly the names that end with a dot and its domain, so not the domain
/// itself, and a name without an asterisk covers nothing.
pub proof fn law_coverage_means_below(domain: Seq<char>, host: Seq<char>)
    requires
        is_lower(domain),
        is_lower(host),
        undotted(domain),
        undotted(host),
    ensures
        covers("*."@ + domain, host) <==> (seq!['.'] + domain).is_suffix_of(host),
        !covers("*."@ + domain, domain),
        domain[0] != '*' ==> !covers(domain, host),
{
    reveal_strlit("*.");
    let w = "*."@ + domain;
    let dot = CharClass::Is('.');
    assert(is_lower(w)) by {
        assert forall|i: int| 0 <= i < w.len() implies !('A' <= #[trigger] w[i] <= 'Z') by {
            if i >= 2 {
                assert(w[i] == domain[i - 2]);
            }
        }
    }
    lemma_lowered(w);
    lemma_lowered(host);
    lemma_lowered(domain);
    assert(w.last() == domain.last());
    lemma_unchanged_by_trim(w, dot);
    lemma_unchanged_by_trim(host, dot);
    lemma_unchanged_by_trim(domain, dot);
    assert(w.subrange(0, 2) =~= "*."@);
    assert(w.skip(2) =~= domain);
    if "*."@.is_prefix_of(domain) {
        assert(domain.subrange(0, 2)[0] == domain[0]);
    }
}

/// Capitals make no difference to coverage.
pub proof fn law_coverage_ignores_capitals(wildcard: Seq<char>, host: Seq<char>)
    ensures
        covers(wildcard, host) == covers(lowered(wildcard), lowered(host)),
{
    lemma_lowered(wildcard);
    lemma_lowered(host);
}

// ---------------------------------------------------------------------------
// Keys

/// Two texts that are equal behind a colon and a number each have the same number and the
/// same text before it.
proof fn lemma_same_port(c1: Seq<char>, p1: u16, c2: Seq<char>, p2: u16)
    requires
        c1 + seq![':'] + decimal(p1 as nat) == c2 + seq![':'] + decimal(p2 as nat),
    ensures
        c1 == c2,
        p1 == p2,
{
    let (d1, d2) = (decimal(p1 as nat), decimal(p2 as nat));
    let t = c1 + seq![':'] + d1;
    let k = CharClass::Is(':');
    lemma_decimal(p1 as nat);
    lemma_decimal(p2 as nat);
    assert forall|m: int| c1.len() < m < t.len() implies !k.has(#[trigger] t[m]) by {
        assert(t[m] == d1[m - c1.len() - 1]);
        assert(CharClass::Digit.has(d1[m - c1.len() - 1]));
    }
    let t2 = c2 + seq![':'] + d2;
    assert forall|m: int| c2.len() < m < t2.len() implies !k.has(#[trigger] t2[m]) by {
        assert(t2[m] == d2[m - c2.len() - 1]);
        assert(CharClass::Digit.has(d2[m - c2.len() - 1]));
    }
    lemma_last_index_is(t, k, t.len() as int, c1.len() as int);
    lemma_last_index_is(t2, k, t2.len() as int, c2.len() as int);
    assert(c1 =~= t.take(c1.len() as int));
    assert(c2 =~= t.take(c2.len() as int));
    assert(d1 =~= t.skip(c1.len() as int + 1));
    assert(d2 =~= t.skip(c2.len() as int + 1));
}

/// The kind of an asset can be told from its key, and so can what follows.
proof fn lemma_key_tells_kind(a: AssetView, b: AssetView, x: Seq<char>, y: Seq<char>)
    requires
        a.kind.name() + seq![':'] + x == b.kind.name() + seq![':'] + y,
    ensures
        a.kind == b.kind,
        x == y,
{
    reveal_strlit("apex");
    reveal_strlit("subdomain");
    reveal_strlit("wildcard");
    reveal_strlit("ip");
    reveal_strlit("garbage");
    let (n, m) = (a.kind.name(), b.kind.name());
    let t = n + seq![':'] + x;
    let k = CharClass::Is(':');
    assert forall|i: int| 0 <= i < n.len() implies !k.has(#[trigger] t[i]) by {
        assert(t[i] == n[i]);
    }
    let t2 = m + seq![':'] + y;
    assert forall|i: int| 0 <= i < m.len() implies !k.has(#[trigger] t2[i]) by {
        assert(t2[i] == m[i]);
    }
    lemma_index_is(t, k, 0, n.len() as int);
    lemma_index_is(t2, k, 0, m.len() as int);
    assert(n.len() == m.len());
    assert(n[0] == t[0] && m[0] == t2[0]);
    assert(x =~= t.skip(n.len() as int + 1));
    assert(y =~= t.skip(n.len() as int + 1));
}

/// What the key of an asset holds behind the kind.
spec fn key_rest(a: AssetView) -> Seq<char> {
    match a.port {
        None => a.canonical,
        Some(p) => if a.kind is Ip {
            seq!['['] + a.canonical + seq![']'] + seq![':'] + decimal(p as nat)
        } else {
            a.canonical + seq![':'] + decimal(p as nat)
        },
    }
}

proof fn lemma_key_rest(n: NormalizedView, registrable: Option<Seq<char>>)
    ensures
        ({
            let a = classified(n, registrable);
            &&& a.key() == a.kind.name() + seq![':'] + key_rest(a)
            &&& a.kind is Ip ==> (a.port is Some <==> key_rest(a).len() > 0 && key_rest(a)[0] == '[')
            &&& a.kind is Apex || a.kind is Subdomain || a.kind is Wildcard ==> (a.port is Some
                <==> has_any(key_rest(a), CharClass::Is(':')))
            &&& a.kind is Garbage ==> a.port is None
        }),
{
    let a = classified(n, registrable);
    let host = trimmed(n.host, CharClass::Whitespace);
    let colon = CharClass::Is(':');
    let base = a.kind.name() + seq![':'];
    if let Some(p) = a.port {
        let d = decimal(p as nat);
        assert(a.kind is Ip ==> base + seq!['['] + a.canonical + seq![']', ':'] + d =~= base
            + key_rest(a));
        assert(base + a.canonical + seq![':'] + d =~= base + (a.canonical + seq![':'] + d));
        let r = a.canonical + seq![':'] + d;
        assert(colon.has(r[a.canonical.len() as int]));
    }
    if a.kind is Ip {
        let ip = ip_value(host)->0;
        let x = ip.text();
        lemma_address_text(ip);
        assert(CharClass::HexDigit.has(x[0]) || x[0] == ':' || x[0] == '.');
        crate::normalize::lemma_no_star(x);
        if let Some(p) = a.port {
            let c = a.canonical;
            if has_any(x, colon) {
                assert(colon.has(c[x.len() as int + 2]));
            } else {
                assert(colon.has(c[x.len() as int]));
            }
        }
    } else if !(a.kind is Garbage) {
        reveal_strlit("*.");
        lemma_well_formed_chars(host);
        let w = wildcard_base(host);
        assert forall|i: int| 0 <= i < host.len() implies !colon.has(#[trigger] host[i]) by {
            if "*."@.is_prefix_of(host) {
                if i < 2 {
                    assert(host.subrange(0, 2)[i] == host[i]);
                } else {
                    assert(CharClass::LabelInside.has(w[i - 2]) || w[i - 2] == '.');
                }
            } else {
                assert(CharClass::LabelInside.has(w[i]) || w[i] == '.');
            }
        }
    }
}

/// Keys tell assets apart: two classified assets have the same key exactly if they have the
/// same kind, the same canonical form and the same port.
pub proof fn law_keys_tell_assets_apart(
    n1: NormalizedView,
    registrable1: Option<Seq<char>>,
    n2: NormalizedView,
    registrable2: Option<Seq<char>>,
)
    ensures
        ({
            let a = classified(n1, registrable1);
            let b = classified(n2, registrable2);
            a.key() == b.key() <==> a.kind == b.kind && a.canonical == b.canonical && a.port
                == b.port
        }),
{
    let a = classified(n1, registrable1);
    let b = classified(n2, registrable2);
    lemma_key_rest(n1, registrable1);
    lemma_key_rest(n2, registrable2);
    if a.key() == b.key() {
        lemma_key_tells_kind(a, b, key_rest(a), key_rest(b));
        assert(a.port is Some <==> b.port is Some);
        if a.port is Some {
            let (p, q) = (a.port->0, b.port->0);
            if a.kind is Ip {
                let x = seq!['['] + a.canonical + seq![']'];
                let y = seq!['['] + b.canonical + seq![']'];
                lemma_same_port(x, p, y, q);
                assert(a.canonical =~= x.subrange(1, x.len() - 1));
                assert(b.canonical =~= y.subrange(1, y.len() - 1));
            } else {
                lemma_same_port(a.canonical, p, b.canonical, q);
            }
        }
    }
}

/// Whether a record is the first one with its key.
pub open spec fn is_first(records: Seq<AssetView>, k: int) -> bool {
    &&& 0 <= k < records.len()
    &&& forall|i: int| 0 <= i < k ==> (#[trigger] records[i]).key() != records[k].key()
}

/// Whether a record says of an asset what another says: what it was made from, what it is
/// and why, and its registrable domain and port if the other has them.
pub open spec fn stands_for(d: AssetView, a: AssetView) -> bool {
    &&& d.raw == a.raw
    &&& d.kind == a.kind
    &&& d.canonical == a.canonical
    &&& d.reason == a.reason
    &&& a.port is Some || !(a.kind is Garbage) ==> d.port == a.port
    &&& a.registrable is Some ==> d.registrable == a.registrable
    &&& a.scheme is Some ==> d.scheme == a.scheme
}

/// Whether the places of the first records of each key are listed in their order, each with
/// the record that stands for it.
spec fn represents(m: Seq<AssetView>, records: Seq<AssetView>, at: Seq<int>) -> bool {
    &&& at.len() == m.len()
    &&& forall|j: int|
        0 <= j < m.len() ==> is_first(records, #[trigger] at[j]) && stands_for(
            m[j],
            records[at[j]],
        ) && m[j].key() == records[at[j]].key()
    &&& forall|i: int, j: int| 0 <= i < j < at.len() ==> (#[trigger] at[i]) < (#[trigger] at[j])
}

proof fn lemma_represented(records: Seq<AssetView>) -> (at: Seq<int>)
    ensures
        represents(merged(records), records, at),
    decreases records.len(),
{
    if records.len() == 0 {
        Seq::empty()
    } else {
        let rest = records.drop_last();
        let r = records[records.len() - 1];
        let m = merged(rest);
        let w = merged(records);
        let before = lemma_represented(rest);
        lemma_merged(rest);
        lemma_place(m, r.key(), 0);
        let p = place(m, r.key(), 0);
        assert forall|j: int| 0 <= j < m.len() implies is_first(records, #[trigger] before[j])
            && records[before[j]] == rest[before[j]] by {
            assert(is_first(rest, before[j]));
            assert forall|i: int| 0 <= i < before[j] implies (#[trigger] records[i]).key()
                != records[before[j]].key() by {
                assert(rest[i] == records[i]);
            }
        }
        if p < m.len() {
            assert(w =~= m.update(p, united(m[p], r)));
            assert(w[p].key() == m[p].key());
            before
        } else {
            let at = before.push(records.len() - 1);
            assert(is_first(records, records.len() - 1)) by {
                assert forall|i: int| 0 <= i < records.len() - 1 implies (
                #[trigger] records[i]).key() != r.key() by {
                    assert(rest[i] == records[i]);
                    assert(has_key(m, rest[i].key()));
                    let j = choose|j: int| 0 <= j < m.len() && (#[trigger] m[j]).key()
                        == rest[i].key();
                    assert(m[j].key() != r.key());
                }
            }
            assert forall|i: int, j: int| 0 <= i < j < at.len() implies (#[trigger] at[i]) < (
            #[trigger] at[j]) by {
                assert(is_first(rest, before[i]));
            }
            at
        }
    }
}

/// Whether the records of a list stand for the first records of each key, which are at the
/// given places, in their order, and for all of them.
pub open spec fn stand_for_firsts(
    d: Seq<AssetView>,
    records: Seq<AssetView>,
    at: Seq<int>,
) -> bool {
    &&& at.len() == d.len()
    &&& forall|j: int|
        0 <= j < at.len() ==> is_first(records, #[trigger] at[j]) && stands_for(
            d[j],
            records[at[j]],
        )
    &&& forall|i: int, j: int| 0 <= i < j < at.len() ==> (#[trigger] at[i]) < (#[trigger] at[j])
    &&& forall|k: int| #[trigger] is_first(records, k) ==> at.contains(k)
}

/// Deduplication keeps the first record of each key, in the order of the input: every output
/// record stands for one of them, and every input has its key in the output.
pub proof fn law_first_records_are_kept_in_order(records: Seq<AssetView>)
    ensures
        exists|at: Seq<int>| stand_for_firsts(deduped(records), records, at),
{
    let at = lemma_represented(records);
    lemma_merged(records);
    let m = merged(records);
    let d = deduped(records);
    assert forall|j: int| 0 <= j < at.len() implies is_first(records, #[trigger] at[j])
        && stands_for(d[j], records[at[j]]) by {
        assert(d[j] == annotated(m[j], m));
    }
    assert forall|k: int| #[trigger] is_first(records, k) implies at.contains(k) by {
        assert(has_key(m, records[k].key()));
        let j = choose|j: int| 0 <= j < m.len() && (#[trigger] m[j]).key() == records[k].key();
        assert(is_first(records, at[j]));
        if at[j] < k {
            assert(records[at[j]].key() != records[k].key());
        } else if at[j] > k {
            assert(records[k].key() != records[at[j]].key());
        }
        assert(at[j] == k);
    }
    assert(stand_for_firsts(d, records, at));
}

/// Of classified inputs deduplication loses no asset: the output has a record of the same
/// kind, with the same canonical form and the same port as each of them.
pub proof fn law_no_asset_is_lost(
    inputs: Seq<Seq<char>>,
    rules: Map<Seq<char>, bool>,
    records: Seq<AssetView>,
    i: int,
)
    requires
        records == inputs.map_values(|raw: Seq<char>| asset_of_input(raw, rules)),
        0 <= i < records.len(),
    ensures
        exists|j: int|
            0 <= j < deduped(records).len() && (#[trigger] deduped(records)[j]).kind
                == records[i].kind && deduped(records)[j].canonical == records[i].canonical
                && deduped(records)[j].port == records[i].port,
        forall|j: int, k: int|
            0 <= j < k < deduped(records).len() ==> !((#[trigger] deduped(records)[j]).kind == (
            #[trigger] deduped(records)[k]).kind && deduped(records)[j].canonical == deduped(
                records,
            )[k].canonical && deduped(records)[j].port == deduped(records)[k].port),
{
    let at = lemma_represented(records);
    lemma_merged(records);
    let m = merged(records);
    let d = deduped(records);
    assert(has_key(m, records[i].key()));
    let j = choose|j: int| 0 <= j < m.len() && (#[trigger] m[j]).key() == records[i].key();
    let k = at[j];
    assert(is_first(records, k));
    let (n1, n2) = (normal_form(inputs[i]), normal_form(inputs[k]));
    let r1 = registrable_form(registrable_part(rules, domain_base(n1)));
    let r2 = registrable_form(registrable_part(rules, domain_base(n2)));
    law_keys_tell_assets_apart(n1, r1, n2, r2);
    assert(records[i] == classified(n1, r1) && records[k] == classified(n2, r2));
    assert(d[j] == annotated(m[j], m));
    assert(stands_for(m[j], records[k]));
    lemma_garbage_has_no_port(inputs, rules, records);
    assert(m[j].port == records[k].port);
    law_one_record_per_key(records);
    assert forall|j: int, k: int| 0 <= j < k < d.len() implies !((#[trigger] d[j]).kind == (
    #[trigger] d[k]).kind && d[j].canonical == d[k].canonical && d[j].port == d[k].port) by {
        assert(d[j].key() != d[k].key());
    }
}

proof fn lemma_garbage_has_no_port(
    inputs: Seq<Seq<char>>,
    rules: Map<Seq<char>, bool>,
    records: Seq<AssetView>,
)
    requires
        records == inputs.map_values(|raw: Seq<char>| asset_of_input(raw, rules)),
    ensures
        forall|i: int|
            0 <= i < merged(records).len() && (#[trigger] merged(records)[i]).kind is Garbage
                ==> merged(records)[i].port is None,
{
    lemma_ports_of_garbage(records);
}

proof fn lemma_ports_of_garbage(records: Seq<AssetView>)
    requires
        forall|i: int|
            0 <= i < records.len() && (#[trigger] records[i]).kind is Garbage ==> records[i].port
                is None,
    ensures
        forall|i: int|
            0 <= i < merged(records).len() && (#[trigger] merged(records)[i]).kind is Garbage
                ==> merged(records)[i].port is None,
    decreases records.len(),
{
    if records.len() > 0 {
        let rest = records.drop_last();
        let r = records[records.len() - 1];
        assert forall|i: int| 0 <= i < rest.len() && (#[trigger] rest[i]).kind is Garbage implies rest[i].port
            is None by {
            assert(rest[i] == records[i]);
        }
        lemma_ports_of_garbage(rest);
        let m = merged(rest);
        let w = merged(records);
        lemma_place(m, r.key(), 0);
        let p = place(m, r.key(), 0);
        assert forall|i: int| 0 <= i < w.len() && (#[trigger] w[i]).kind is Garbage implies w[i].port
            is None by {
            if i < m.len() {
                assert(m[i].kind is Garbage);
                if i == p {
                    lemma_key_tells_kind_of(m[i], r);
                }
            }
        }
    }
}

/// A record with the key of garbage is garbage.
proof fn lemma_key_tells_kind_of(a: AssetView, b: AssetView)
    requires
        a.key() == b.key(),
    ensures
        a.kind == b.kind,
{
    let x = a.key().skip(a.kind.name().len() as int + 1);
    let y = b.key().skip(b.kind.name().len() as int + 1);
    assert(a.key() =~= a.kind.name() + seq![':'] + x);
    assert(b.key() =~= b.kind.name() + seq![':'] + y);
    lemma_key_tells_kind(a, b, x, y);
}

/// What two records of one asset are united to. The first keeps what it says, what it leaves
/// open is taken from the second, and no address and no covering wildcard of either is lost.
pub proof fn law_uniting_loses_nothing(a: AssetView, b: AssetView)
    ensures
        ({
            let u = united(a, b);
            &&& stands_for(u, a)
            &&& a.scheme is None ==> u.scheme == b.scheme
            &&& a.registrable is None ==> u.registrable == b.registrable
            &&& u.cnames == (if a.cnames.len() > 0 {
                a.cnames
            } else {
                b.cnames
            })
            &&& forall|ip: IpAddr| #[trigger]
                u.ips.contains(ip) <==> a.ips.contains(ip) || b.ips.contains(ip)
            &&& forall|k: Seq<char>| #[trigger]
                u.covered_by.contains(k) <==> a.covered_by.contains(k) || b.covered_by.contains(k)
            &&& u.dns == a.dns && u.scope == a.scope && u.cdn == a.cdn && u.confidence
                == a.confidence
        }),
{
    lemma_all_added(a.ips, b.ips);
    let x = all_added(a.covered_by, b.covered_by);
    lemma_all_added(a.covered_by, b.covered_by);
    crate::lists::lemma_sorted_texts(x);
}

} // verus!

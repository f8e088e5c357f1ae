//! Zones: the ancestors of hosts, their states and what these mean for a host.

use vstd::prelude::*;
use vstd::slice::slice_subrange;

use crate::classify::{classified, lemma_well_formed_chars, wildcard_base};
use crate::dedupe::{bare_host, law_canonical_form_without_port_is_host};
use crate::dns::decision::{opt_signature, SignatureView, WildcardSignature};
use crate::dns::stats::SignatureParentStats;
use crate::ip::{add_ips, ip_value, lemma_address_text, lemma_v6_has_colons, IpAddr};
use crate::lists::{
    add_unique, all_added, is_sorted_set, lemma_added, lemma_all_added, sort_texts, tally, TextMap,
    UniqueTexts,
};
use crate::model::{views, Asset, AssetKind, AssetView};
use crate::normalize::{lemma_no_star, NormalizedView};
use crate::numbers::decimal;
use crate::text::{
    chars_of, concat, contains_any, find, first_index, has_any, last_index, last_occurrence,
    lemma_index_before, lemma_index_from, lemma_last_index_is, opt_text, rfind, rfind_text,
    string_of, texts, trim, trim_start, trimmed, without_leading, CharClass,
};

verus! {

// ---------------------------------------------------------------------------
// Hosts and their ancestors

/// The zone above a host. A name with fewer than two dots has none: a TLD or an apex
/// is not probed.
pub open spec fn parent(host: Seq<char>) -> Option<Seq<char>> {
    let t = trimmed(host, CharClass::Is('.'));
    let i = first_index(t, CharClass::Is('.'));
    if i < last_index(t, CharClass::Is('.')) {
        Some(t.skip(i + 1))
    } else {
        None
    }
}

proof fn lemma_parent_is_shorter(host: Seq<char>)
    ensures
        parent(host) matches Some(p) ==> p.len() < host.len(),
{
    let t = trimmed(host, CharClass::Is('.'));
    crate::text::lemma_trimmed(host, CharClass::Is('.'));
    lemma_index_from(t, CharClass::Is('.'), 0);
    lemma_index_before(t, CharClass::Is('.'), t.len() as int);
}

/// The zones above a host, the nearest first.
pub open spec fn ancestors(host: Seq<char>) -> Seq<Seq<char>>
    decreases host.len(),
    via ancestors_decreases
{
    match parent(host) {
        Some(p) => seq![p] + ancestors(p),
        None => Seq::empty(),
    }
}

#[via_fn]
proof fn ancestors_decreases(host: Seq<char>) {
    lemma_parent_is_shorter(host);
}

/// The zone above a host.
pub fn parent_of(host: &str) -> (r: Option<String>)
    ensures
        opt_text(r) == parent(host@),
        r matches Some(p) ==> p@.len() < host@.len(),
{
    let chars = chars_of(host);
    let t = trim(chars.as_slice(), CharClass::Is('.'));
    let n: usize = t.len();
    proof {
        lemma_parent_is_shorter(host@);
        lemma_index_from(t@, CharClass::Is('.'), 0);
        lemma_index_before(t@, CharClass::Is('.'), t@.len() as int);
    }
    match (find(t, CharClass::Is('.')), rfind(t, CharClass::Is('.'))) {
        (Some(i), Some(j)) => {
            if i < j {
                let rest = slice_subrange(t, i + 1, n);
                assert(rest@ =~= t@.skip(i + 1));
                Some(string_of(rest))
            } else {
                None
            }
        },
        _ => None,
    }
}

/// The name to ask resolvers for.
pub open spec fn query_host(a: AssetView) -> Option<Seq<char>> {
    let c = a.canonical;
    let colon = last_index(c, CharClass::Is(':'));
    let host = if c.len() > 0 && c[0] == '[' {
        match last_occurrence(c, "]:"@) {
            Some(i) => without_leading(c.take(i), CharClass::Is('[')),
            None => c,
        }
    } else if colon >= 0 && !has_any(c.take(colon), CharClass::Is(':')) {
        c.take(colon)
    } else {
        c
    };
    if a.kind is Garbage || a.kind is Wildcard || host.len() == 0 {
        None
    } else {
        Some(host)
    }
}

/// The name to ask resolvers for. Garbage and wildcards have none.
pub fn host_for_dns(asset: &Asset) -> (r: Option<String>)
    ensures
        opt_text(r) == query_host(asset@),
{
    if asset.kind == AssetKind::Garbage || asset.kind == AssetKind::Wildcard {
        return None;
    }
    let c = chars_of(asset.canonical.as_str());
    let n: usize = c.len();
    proof {
        reveal_strlit("]:");
    }
    let host = if n > 0 && c[0] == '[' {
        match rfind_text(c.as_slice(), "]:") {
            Some(i) => {
                let head = slice_subrange(c.as_slice(), 0, i);
                assert(head@ =~= c@.take(i as int));
                trim_start(head, CharClass::Is('['))
            },
            None => c.as_slice(),
        }
    } else {
        match rfind(c.as_slice(), CharClass::Is(':')) {
            Some(i) => {
                let head = slice_subrange(c.as_slice(), 0, i);
                assert(head@ =~= c@.take(i as int));
                if contains_any(head, CharClass::Is(':')) {
                    c.as_slice()
                } else {
                    head
                }
            },
            None => c.as_slice(),
        }
    };
    if host.len() == 0 {
        None
    } else {
        Some(string_of(host))
    }
}

/// The zones above the apexes and subdomains of a list, each once.
pub open spec fn all_ancestors(v: Seq<AssetView>) -> Seq<Seq<char>>
    decreases v.len(),
{
    if v.len() == 0 {
        Seq::empty()
    } else {
        let a = v.last();
        let rest = all_ancestors(v.drop_last());
        if (a.kind is Apex || a.kind is Subdomain) && query_host(a) is Some {
            all_added(rest, ancestors(query_host(a)->0))
        } else {
            rest
        }
    }
}

proof fn lemma_added_front<A>(out: Seq<A>, x: A, xs: Seq<A>)
    ensures
        all_added(out, seq![x] + xs) == all_added(crate::lists::added(out, x), xs),
{
    crate::lists::lemma_all_added_concat(out, seq![x], xs);
    assert(seq![x].drop_last() =~= Seq::empty());
    assert(all_added(out, seq![x]) == crate::lists::added(out, x)) by {
        assert(all_added(out, Seq::empty()) == out);
    }
}

fn add_ancestors(out: &mut UniqueTexts, host: &str)
    requires
        old(out).wf(),
    ensures
        final(out).wf(),
        final(out)@ == all_added(old(out)@, ancestors(host@)),
{
    let ghost whole = all_added(old(out)@, ancestors(host@));
    let mut cur = host.to_string();
    loop
        invariant
            out.wf(),
            whole == all_added(out@, ancestors(cur@)),
        ensures
            out.wf(),
            out@ == whole,
        decreases cur@.len(),
    {
        match parent_of(cur.as_str()) {
            Some(p) => {
                proof {
                    lemma_added_front(out@, p@, ancestors(p@));
                }
                out.add(p.clone());
                cur = p;
            },
            None => {
                assert(ancestors(cur@) =~= Seq::empty());
                break;
            },
        }
    }
}

/// Collects the zones above the apexes and subdomains of a list, each once.
pub fn collect_ancestors(assets: &Vec<Asset>) -> (r: Vec<String>)
    ensures
        texts(r@) == all_ancestors(views(assets@)),
        texts(r@).no_duplicates(),
{
    let ghost all = views(assets@);
    let mut out = UniqueTexts::new();
    assert(all.take(0) =~= Seq::empty());
    let mut i: usize = 0;
    while i < assets.len()
        invariant
            i <= assets@.len(),
            all == views(assets@),
            out.wf(),
            out@ == all_ancestors(all.take(i as int)),
        decreases assets.len() - i,
    {
        let a = &assets[i];
        assert(all.take(i + 1).drop_last() =~= all.take(i as int));
        assert(all.take(i + 1).last() == a@);
        if a.kind == AssetKind::Apex || a.kind == AssetKind::Subdomain {
            if let Some(host) = host_for_dns(a) {
                add_ancestors(&mut out, host.as_str());
            }
        }
        i += 1;
    }
    assert(all.take(i as int) =~= all);
    out.into_vec()
}

// ---------------------------------------------------------------------------
// States

/// What probes of a zone showed.
#[derive(Debug, Clone)]
pub enum ParentState {
    /// Random names resolve.
    Wildcard(WildcardSignature),
    /// Random names do not resolve.
    Clean,
    /// No probe brought a decisive response.
    Dead,
}

/// What a state says.
pub enum StateView {
    Wildcard(SignatureView),
    Clean,
    Dead,
}

impl View for ParentState {
    type V = StateView;

    open spec fn view(&self) -> StateView {
        match *self {
            ParentState::Wildcard(s) => StateView::Wildcard(s@),
            ParentState::Clean => StateView::Clean,
            ParentState::Dead => StateView::Dead,
        }
    }
}

/// The state that a signature, or its absence, stands for.
pub open spec fn signature_state(sig: Option<SignatureView>) -> StateView {
    match sig {
        Some(s) => StateView::Wildcard(s),
        None => StateView::Clean,
    }
}

/// The state that a signature, or its absence, stands for.
pub fn sig_to_state(sig: Option<WildcardSignature>) -> (r: ParentState)
    ensures
        r@ == signature_state(opt_signature(sig)),
{
    match sig {
        Some(s) => ParentState::Wildcard(s),
        None => ParentState::Clean,
    }
}

/// The state of a zone, if it was probed.
pub open spec fn state_of(zones: Map<Seq<char>, ParentState>, zone: Seq<char>) -> Option<
    StateView,
> {
    if zones.contains_key(zone) {
        Some(zones[zone]@)
    } else {
        None
    }
}

/// What the zones above a host mean for it: the nearest dead zone, and the united
/// signatures of the wildcards.
pub struct AncestorScan {
    pub dead_zone: Option<String>,
    pub signature: Option<WildcardSignature>,
}

/// The first dead zone of a list.
pub open spec fn first_dead(
    zones: Map<Seq<char>, ParentState>,
    list: Seq<Seq<char>>,
) -> Option<Seq<char>>
    decreases list.len(),
{
    if list.len() == 0 {
        None
    } else if state_of(zones, list[0]) == Some(StateView::Dead) {
        Some(list[0])
    } else {
        first_dead(zones, list.skip(1))
    }
}

/// A signature with another one united into it; the first root is kept.
pub open spec fn united_signature(
    a: Option<SignatureView>,
    b: SignatureView,
) -> Option<SignatureView> {
    match a {
        None => Some(
            SignatureView {
                root: b.root,
                ips: all_added(Seq::empty(), b.ips),
                cnames: all_added(Seq::empty(), b.cnames),
            },
        ),
        Some(s) => Some(
            SignatureView {
                root: s.root,
                ips: all_added(s.ips, b.ips),
                cnames: all_added(s.cnames, b.cnames),
            },
        ),
    }
}

/// The united signatures of the wildcards of a list, the nearest first.
pub open spec fn all_signatures(
    zones: Map<Seq<char>, ParentState>,
    list: Seq<Seq<char>>,
    from: Option<SignatureView>,
) -> Option<SignatureView>
    decreases list.len(),
{
    if list.len() == 0 {
        from
    } else {
        let next = match state_of(zones, list[0]) {
            Some(StateView::Wildcard(s)) => united_signature(from, s),
            _ => from,
        };
        all_signatures(zones, list.skip(1), next)
    }
}

proof fn lemma_signatures_are_wf(
    zones: Map<Seq<char>, ParentState>,
    list: Seq<Seq<char>>,
    from: Option<SignatureView>,
)
    requires
        from matches Some(s) ==> s.wf(),
    ensures
        all_signatures(zones, list, from) matches Some(s) ==> s.wf(),
    decreases list.len(),
{
    if list.len() > 0 {
        let next = match state_of(zones, list[0]) {
            Some(StateView::Wildcard(s)) => united_signature(from, s),
            _ => from,
        };
        if let Some(StateView::Wildcard(s)) = state_of(zones, list[0]) {
            lemma_all_added(Seq::<crate::ip::IpAddr>::empty(), s.ips);
            lemma_all_added(Seq::<Seq<char>>::empty(), s.cnames);
            if let Some(f) = from {
                lemma_all_added(f.ips, s.ips);
                lemma_all_added(f.cnames, s.cnames);
            }
        }
        lemma_signatures_are_wf(zones, list.skip(1), next);
    }
}

/// Unites a signature with another one; the first root is kept.
pub fn unite_signatures(a: Option<WildcardSignature>, b: &WildcardSignature) -> (r: Option<
    WildcardSignature,
>)
    ensures
        r is Some,
        opt_signature(r) == united_signature(opt_signature(a), b@),
{
    let mut s = match a {
        Some(s) => s,
        None => WildcardSignature {
            root: b.root.clone(),
            ips: Vec::new(),
            cnames: Vec::new(),
        },
    };
    let ghost before = s@;
    proof {
        if a is None {
            assert(before.cnames =~= Seq::empty());
        }
    }
    add_ips(&mut s.ips, &b.ips);
    let mut i: usize = 0;
    while i < b.cnames.len()
        invariant
            i <= b.cnames@.len(),
            s@.root == before.root,
            s@.ips == all_added(before.ips, b@.ips),
            s@.cnames == all_added(before.cnames, b@.cnames.take(i as int)),
        decreases b.cnames.len() - i,
    {
        add_unique(&mut s.cnames, b.cnames[i].clone());
        assert(b@.cnames.take(i + 1).drop_last() =~= b@.cnames.take(i as int));
        assert(b@.cnames.take(i + 1).last() == b.cnames@[i as int]@);
        i += 1;
    }
    assert(b@.cnames.take(i as int) =~= b@.cnames);
    Some(s)
}

/// The states of the probed zones.
pub struct ZoneTable {
    zones: TextMap<ParentState>,
}

impl View for ZoneTable {
    type V = Map<Seq<char>, ParentState>;

    closed spec fn view(&self) -> Map<Seq<char>, ParentState> {
        self.zones@
    }
}

impl ZoneTable {
    pub closed spec fn wf(&self) -> bool {
        self.zones.wf()
    }

    /// The probed zones, each once.
    pub closed spec fn names(&self) -> Seq<Seq<char>> {
        self.zones.order()
    }

    /// No zone was probed.
    pub fn new() -> (r: Self)
        ensures
            r.wf(),
            r@ == Map::<Seq<char>, ParentState>::empty(),
    {
        ZoneTable { zones: TextMap::new() }
    }

    /// Records the state of a zone.
    pub fn record(&mut self, zone: String, state: ParentState)
        requires
            old(self).wf(),
        ensures
            final(self).wf(),
            final(self)@ == old(self)@.insert(zone@, state),
    {
        self.zones.insert(zone, state);
    }

    /// Walks from a host up to its apex: the nearest dead zone is kept, and the signatures
    /// of the wildcards are united.
    pub fn scan_ancestors(&self, host: &str) -> (r: AncestorScan)
        ensures
            opt_text(r.dead_zone) == first_dead(self@, ancestors(host@)),
            opt_signature(r.signature) == all_signatures(self@, ancestors(host@), None),
            r.signature matches Some(s) ==> s@.wf(),
    {
        let ghost list = ancestors(host@);
        let mut cur = host.to_string();
        let mut dead_zone: Option<String> = None;
        let mut signature: Option<WildcardSignature> = None;
        loop
            invariant
                list == ancestors(host@),
                first_dead(self@, list) == (match opt_text(dead_zone) {
                    Some(z) => Some(z),
                    None => first_dead(self@, ancestors(cur@)),
                }),
                all_signatures(self@, list, None) == all_signatures(
                    self@,
                    ancestors(cur@),
                    opt_signature(signature),
                ),
            decreases cur@.len(),
        {
            match parent_of(cur.as_str()) {
                Some(p) => {
                    let ghost rest = ancestors(cur@);
                    assert(rest[0] == p@);
                    assert(rest.skip(1) =~= ancestors(p@));
                    match self.zones.get(p.as_str()) {
                        Some(ParentState::Dead) => {
                            assert(state_of(self@, p@) == Some(StateView::Dead));
                            if dead_zone.is_none() {
                                dead_zone = Some(p.as_str().to_string());
                            }
                        },
                        Some(ParentState::Wildcard(s)) => {
                            assert(state_of(self@, p@) == Some(StateView::Wildcard(s@)));
                            signature = unite_signatures(signature, s);
                        },
                        Some(ParentState::Clean) => {
                            assert(state_of(self@, p@) == Some(StateView::Clean));
                        },
                        None => {
                            assert(state_of(self@, p@) is None);
                        },
                    }
                    cur = p;
                },
                None => {
                    assert(ancestors(cur@) =~= Seq::empty());
                    proof {
                        lemma_signatures_are_wf(self@, list, None);
                    }
                    return AncestorScan { dead_zone, signature };
                },
            }
        }
    }

    /// Whether a list holds the roots of the wildcards, sorted, each once.
    pub open spec fn lists_roots(&self, v: Seq<Seq<char>>) -> bool {
        &&& is_sorted_set(v)
        &&& forall|t: Seq<char>| #[trigger]
            v.contains(t) <==> exists|z: Seq<char>| root_in(self@, z) == Some(t)
    }

    /// Whether a list holds the dead zones, sorted.
    pub open spec fn lists_dead(&self, v: Seq<Seq<char>>) -> bool {
        &&& is_sorted_set(v)
        &&& forall|z: Seq<char>| #[trigger]
            v.contains(z) <==> state_of(self@, z) == Some(StateView::Dead)
    }

    /// Whether counts are those of the probed zones.
    pub open spec fn counted_by(&self, c: SignatureParentStats) -> bool {
        &&& c.total == self.names().len()
        &&& c.wildcard == tally(
            self.names(),
            |z: Seq<char>| state_of(self@, z) matches Some(StateView::Wildcard(_)),
        )
        &&& c.clean == tally(
            self.names(),
            |z: Seq<char>| state_of(self@, z) == Some(StateView::Clean),
        )
        &&& c.dead == tally(
            self.names(),
            |z: Seq<char>| state_of(self@, z) == Some(StateView::Dead),
        )
        &&& c.wildcard + c.clean + c.dead == c.total
    }

    /// The roots of the wildcards, sorted, each once.
    pub fn wildcard_roots(&self) -> (r: Vec<String>)
        requires
            self.wf(),
        ensures
            self.lists_roots(texts(r@)),
    {
        let mut out = UniqueTexts::new();
        let ghost names = self.zones.order();
        let mut i: usize = 0;
        while i < self.zones.len()
            invariant
                self.wf(),
                names == self.zones.order(),
                i <= names.len(),
                out.wf(),
                forall|t: Seq<char>| #[trigger]
                    out@.contains(t) <==> exists|j: int|
                        0 <= j < i && root_in(self@, #[trigger] names[j]) == Some(t),
            decreases names.len() - i,
        {
            let ghost before = out@;
            let name = self.zones.name(i);
            match self.zones.get(name.as_str()) {
                Some(ParentState::Wildcard(s)) => {
                    let root = concat("*.", s.root.as_str());
                    proof {
                        lemma_added(out@, root@);
                    }
                    assert(root_in(self@, names[i as int]) == Some(root@));
                    out.add(root);
                },
                _ => {
                    assert(root_in(self@, names[i as int]) is None);
                },
            }
            assert forall|t: Seq<char>| #[trigger] out@.contains(t) <==> exists|j: int|
                0 <= j < i + 1 && root_in(self@, #[trigger] names[j]) == Some(t) by {
                assert(out@.contains(t) <==> before.contains(t) || root_in(
                    self@,
                    names[i as int],
                ) == Some(t));
            }
            i += 1;
        }
        proof {
            self.zones.lemma_order();
            crate::lists::lemma_sorted_texts(out@);
            assert forall|t: Seq<char>| #[trigger] out@.contains(t) <==> exists|z: Seq<char>|
                root_in(self@, z) == Some(t) by {
                if exists|z: Seq<char>| root_in(self@, z) == Some(t) {
                    let z = choose|z: Seq<char>| root_in(self@, z) == Some(t);
                    assert(self.zones@.contains_key(z));
                    let j = choose|j: int| 0 <= j < names.len() && names[j] == z;
                    assert(root_in(self@, names[j]) == Some(t));
                }
            }
        }
        sort_texts(&out.into_vec())
    }

    /// The dead zones, sorted.
    pub fn dead_zones(&self) -> (r: Vec<String>)
        requires
            self.wf(),
        ensures
            self.lists_dead(texts(r@)),
    {
        let mut out = UniqueTexts::new();
        let ghost names = self.zones.order();
        let mut i: usize = 0;
        while i < self.zones.len()
            invariant
                self.wf(),
                names == self.zones.order(),
                i <= names.len(),
                out.wf(),
                forall|z: Seq<char>| #[trigger]
                    out@.contains(z) <==> state_of(self@, z) == Some(StateView::Dead) && exists|
                        j: int,
                    |
                        0 <= j < i && #[trigger] names[j] == z,
            decreases names.len() - i,
        {
            let ghost before = out@;
            let name = self.zones.name(i);
            let dead = matches!(self.zones.get(name.as_str()), Some(ParentState::Dead));
            if dead {
                proof {
                    lemma_added(out@, name@);
                }
                out.add(name.clone());
            }
            assert(dead == (state_of(self@, names[i as int]) == Some(StateView::Dead)));
            assert forall|z: Seq<char>| #[trigger] out@.contains(z) <==> state_of(self@, z) == Some(
                StateView::Dead,
            ) && exists|j: int| 0 <= j < i + 1 && #[trigger] names[j] == z by {
                assert(out@.contains(z) <==> before.contains(z) || (dead && z == names[i as int]));
            }
            i += 1;
        }
        proof {
            self.zones.lemma_order();
            crate::lists::lemma_sorted_texts(out@);
            assert forall|z: Seq<char>| #[trigger] out@.contains(z) <==> state_of(self@, z) == Some(
                StateView::Dead,
            ) by {
                if state_of(self@, z) is Some {
                    assert(self.zones@.contains_key(z));
                    let j = choose|j: int| 0 <= j < names.len() && names[j] == z;
                    assert(names[j] == z);
                }
            }
        }
        sort_texts(&out.into_vec())
    }

    /// How many zones were probed, and in what state they are.
    pub fn count(&self) -> (r: SignatureParentStats)
        requires
            self.wf(),
        ensures
            self.counted_by(r),
    {
        let ghost names = self.names();
        let ghost w = |z: Seq<char>| state_of(self@, z) matches Some(StateView::Wildcard(_));
        let ghost c = |z: Seq<char>| state_of(self@, z) == Some(StateView::Clean);
        let ghost d = |z: Seq<char>| state_of(self@, z) == Some(StateView::Dead);
        let mut r = SignatureParentStats::default();
        r.total = self.zones.len();
        assert(names.take(0) =~= Seq::empty());
        proof {
            self.zones.lemma_order();
        }
        let mut i: usize = 0;
        while i < self.zones.len()
            invariant
                self.wf(),
                names == self.zones.order(),
                forall|k: Seq<char>| #[trigger]
                    self.zones@.contains_key(k) <==> names.contains(k),
                i <= names.len(),
                r.total == names.len(),
                w == (|z: Seq<char>| state_of(self@, z) matches Some(StateView::Wildcard(_))),
                c == (|z: Seq<char>| state_of(self@, z) == Some(StateView::Clean)),
                d == (|z: Seq<char>| state_of(self@, z) == Some(StateView::Dead)),
                r.wildcard == tally(names.take(i as int), w),
                r.clean == tally(names.take(i as int), c),
                r.dead == tally(names.take(i as int), d),
                r.wildcard + r.clean + r.dead == i,
            decreases names.len() - i,
        {
            assert(names.take(i + 1).drop_last() =~= names.take(i as int));
            assert(names.take(i + 1).last() == names[i as int]);
            let name = self.zones.name(i);
            assert(names.contains(names[i as int]));
            match self.zones.get(name.as_str()) {
                Some(ParentState::Wildcard(_)) => {
                    assert(w(names[i as int]) && !c(names[i as int]) && !d(names[i as int]));
                    r.wildcard += 1;
                },
                Some(ParentState::Clean) => {
                    assert(!w(names[i as int]) && c(names[i as int]) && !d(names[i as int]));
                    r.clean += 1;
                },
                Some(ParentState::Dead) => {
                    assert(!w(names[i as int]) && !c(names[i as int]) && d(names[i as int]));
                    r.dead += 1;
                },
                None => {},
            }
            i += 1;
        }
        assert(names.take(i as int) =~= names);
        r
    }

    /// The names are those of the probed zones, each once.
    pub proof fn law_zones_are_named_once(&self)
        requires
            self.wf(),
        ensures
            self.names().no_duplicates(),
            forall|z: Seq<char>| #[trigger] self@.contains_key(z) <==> self.names().contains(z),
    {
        self.zones.lemma_order();
        assert forall|z: Seq<char>| #[trigger] self@.contains_key(z) <==> self.names().contains(
            z,
        ) by {
            assert(self.zones@.contains_key(z) <==> self.zones.order().contains(z));
        }
    }
}

/// The root of a zone that is a wildcard.
pub open spec fn root_in(zones: Map<Seq<char>, ParentState>, zone: Seq<char>) -> Option<Seq<char>> {
    match state_of(zones, zone) {
        Some(StateView::Wildcard(s)) => Some("*."@ + s.root),
        _ => None,
    }
}

/// Every zone above a host is a proper end of it, up to dots at its edges, and holds a
/// dot itself.
pub proof fn law_ancestors_are_proper_zones(host: Seq<char>)
    ensures
        forall|i: int|
            0 <= i < ancestors(host).len() ==> (#[trigger] ancestors(host)[i]).len() < host.len()
                && has_any(ancestors(host)[i], CharClass::Is('.')),
    decreases host.len(),
{
    if let Some(p) = parent(host) {
        lemma_parent_is_shorter(host);
        law_ancestors_are_proper_zones(p);
        let t = trimmed(host, CharClass::Is('.'));
        let i = first_index(t, CharClass::Is('.'));
        let j = last_index(t, CharClass::Is('.'));
        lemma_index_from(t, CharClass::Is('.'), 0);
        lemma_index_before(t, CharClass::Is('.'), t.len() as int);
        assert(p[j - i - 1] == t[j]);
        let all = ancestors(host);
        assert forall|n: int| 0 <= n < all.len() implies (#[trigger] all[n]).len() < host.len()
            && has_any(all[n], CharClass::Is('.')) by {
            if n > 0 {
                assert(all[n] == ancestors(p)[n - 1]);
            }
        }
    }
}

/// The name to ask for is the host of the asset, without its port.
pub proof fn law_hosts_are_asked_for_without_port(
    n: NormalizedView,
    registrable: Option<Seq<char>>,
)
    requires
        classified(n, registrable).host(),
    ensures
        query_host(classified(n, registrable)) == Some(bare_host(classified(n, registrable))),
{
    let a = classified(n, registrable);
    let host = trimmed(n.host, CharClass::Whitespace);
    let h = bare_host(a);
    let c = a.canonical;
    let colon = CharClass::Is(':');
    law_canonical_form_without_port_is_host(n, registrable);
    if a.kind is Ip {
        let ip = ip_value(host)->0;
        lemma_address_text(ip);
        assert(CharClass::HexDigit.has(h[0]) || h[0] == ':' || h[0] == '.');
        lemma_no_star(h);
        if ip is V6 && n.port is Some {
            assert(c == seq!['['] + h + seq![']', ':'] + decimal(n.port->0 as nat));
            assert(c[0] == '[');
        }
        if ip is V6 && n.port is None {
            let v = ip->V6_0;
            lemma_v6_has_colons(v);
            let (i, j) = choose|i: int, j: int|
                0 <= i < j < c.len() && #[trigger] c[i] == ':' && #[trigger] c[j] == ':';
            lemma_index_before(c, colon, c.len() as int);
            let last = last_index(c, colon);
            assert(colon.has(c[j]));
            assert(c.take(last)[i] == c[i]);
            assert(has_any(c.take(last), colon)) by {
                assert(colon.has(c.take(last)[i]));
            }
        }
        if ip is V4 {
            if n.port is None {
                lemma_last_index_is(c, colon, c.len() as int, -1);
            } else {
                assert(c == h + seq![':'] + decimal(n.port->0 as nat));
                assert(c[0] == h[0]);
            }
        }
    } else {
        lemma_well_formed_chars(host);
        let base = wildcard_base(host);
        assert(CharClass::LabelInside.has(base[0]) || base[0] == '.');
        assert forall|i: int| 0 <= i < h.len() implies !colon.has(#[trigger] h[i]) by {
            assert(CharClass::LabelInside.has(base[i]) || base[i] == '.');
        }
        if n.port is None {
            lemma_last_index_is(c, colon, c.len() as int, -1);
        } else {
            assert(!has_any(h, colon));
            assert(c == h + seq![':'] + decimal(n.port->0 as nat));
            assert(c[0] == h[0]);
        }
    }
}

/// Whether a name is made of labels: its dots have something on either side and do not
/// touch.
pub open spec fn labelled(host: Seq<char>) -> bool {
    forall|i: int|
        0 <= i < host.len() && #[trigger] host[i] == '.' ==> 0 < i < host.len() - 1 && host[i + 1]
            != '.'
}

proof fn lemma_labelled(host: Seq<char>, k: int)
    requires
        labelled(host),
        0 <= k < host.len(),
        host[k] == '.',
    ensures
        trimmed(host, CharClass::Is('.')) == host,
        labelled(host.skip(k + 1)),
{
    assert(host[0] != '.');
    assert(host[host.len() - 1] != '.');
    crate::text::lemma_unchanged_by_trim(host, CharClass::Is('.'));
    let rest = host.skip(k + 1);
    assert forall|i: int| 0 <= i < rest.len() && #[trigger] rest[i] == '.' implies 0 < i < rest.len()
        - 1 && rest[i + 1] != '.' by {
        assert(host[i + k + 1] == '.');
        assert(host[k + 1] != '.');
    }
}

/// The zones above a host are exactly what follows one of its dots and holds a dot itself.
pub proof fn law_ancestors_follow_dots(host: Seq<char>, zone: Seq<char>)
    requires
        labelled(host),
    ensures
        ancestors(host).contains(zone) <==> exists|k: int|
            0 <= k < host.len() && #[trigger] host[k] == '.' && zone == host.skip(k + 1)
                && zone.contains('.'),
    decreases host.len(),
{
    let dot = CharClass::Is('.');
    let i = first_index(host, dot);
    lemma_index_from(host, dot, 0);
    if i == host.len() {
        assert(trimmed(host, dot) == host) by {
            if host.len() > 0 {
                assert(!dot.has(host[0]) && !dot.has(host[host.len() - 1]));
            }
            crate::text::lemma_unchanged_by_trim(host, dot);
        }
        lemma_index_before(host, dot, host.len() as int);
        assert forall|k: int| 0 <= k < host.len() implies #[trigger] host[k] != '.' by {
            assert(!dot.has(host[k]));
        }
        assert(ancestors(host) =~= Seq::empty());
    } else {
        assert(host[i] == '.');
        lemma_labelled(host, i);
        let j = last_index(host, dot);
        lemma_index_before(host, dot, host.len() as int);
        let p = host.skip(i + 1);
        if i < j {
            assert(parent(host) == Some(p));
            law_ancestors_follow_dots(p, zone);
            assert(p[j - i - 1] == '.');
            assert(p.contains('.'));
            let all = ancestors(host);
            assert(all[0] == p);
            if all.contains(zone) {
                let n = choose|n: int| 0 <= n < all.len() && all[n] == zone;
                if n > 0 {
                    assert(ancestors(p)[n - 1] == zone);
                    let k = choose|k: int|
                        0 <= k < p.len() && #[trigger] p[k] == '.' && zone == p.skip(k + 1)
                            && zone.contains('.');
                    assert(host[k + i + 1] == '.');
                    assert(zone =~= host.skip(k + i + 2));
                } else {
                    assert(host[i] == '.' && zone == host.skip(i + 1));
                }
            }
            if exists|k: int|
                0 <= k < host.len() && #[trigger] host[k] == '.' && zone == host.skip(k + 1)
                    && zone.contains('.') {
                let k = choose|k: int|
                    0 <= k < host.len() && #[trigger] host[k] == '.' && zone == host.skip(k + 1)
                        && zone.contains('.');
                assert(dot.has(host[k]));
                if k > i {
                    assert(p[k - i - 1] == '.');
                    assert(p.skip(k - i) =~= zone);
                    assert(ancestors(p).contains(zone));
                    let n = choose|n: int| 0 <= n < ancestors(p).len() && ancestors(p)[n] == zone;
                    assert(all[n + 1] == zone);
                }
            }
        } else {
            assert(parent(host) is None);
            assert(ancestors(host) =~= Seq::empty());
            assert forall|k: int|
                0 <= k < host.len() && #[trigger] host[k] == '.' && zone == host.skip(
                    k + 1,
                ) implies !zone.contains('.') by {
                assert(dot.has(host[k]));
                assert(k == i);
                if zone.contains('.') {
                    let n = choose|n: int| 0 <= n < zone.len() && zone[n] == '.';
                    assert(dot.has(host[n + k + 1]));
                }
            }
        }
    }
}

/// A zone is collected exactly if it lies above an apex or a subdomain of the list, whatever
/// else that asset holds. So every zone that a host is held against has been probed.
pub proof fn law_every_zone_above_a_host_is_collected(v: Seq<AssetView>, zone: Seq<char>)
    ensures
        all_ancestors(v).contains(zone) <==> exists|i: int|
            0 <= i < v.len() && ((#[trigger] v[i]).kind is Apex || v[i].kind is Subdomain)
                && query_host(v[i]) is Some && ancestors(query_host(v[i])->0).contains(zone),
    decreases v.len(),
{
    if v.len() > 0 {
        let w = v.drop_last();
        let a = v[v.len() - 1];
        law_every_zone_above_a_host_is_collected(w, zone);
        if a.kind is Apex || a.kind is Subdomain {
            if query_host(a) is Some {
                lemma_all_added(all_ancestors(w), ancestors(query_host(a)->0));
            }
        }
        if all_ancestors(w).contains(zone) {
            let i = choose|i: int|
                0 <= i < w.len() && ((#[trigger] w[i]).kind is Apex || w[i].kind is Subdomain)
                    && query_host(w[i]) is Some && ancestors(query_host(w[i])->0).contains(zone);
            assert(v[i] == w[i]);
        }
        if exists|i: int|
            0 <= i < v.len() && ((#[trigger] v[i]).kind is Apex || v[i].kind is Subdomain)
                && query_host(v[i]) is Some && ancestors(query_host(v[i])->0).contains(zone) {
            let i = choose|i: int|
                0 <= i < v.len() && ((#[trigger] v[i]).kind is Apex || v[i].kind is Subdomain)
                    && query_host(v[i]) is Some && ancestors(query_host(v[i])->0).contains(zone);
            if i < w.len() {
                assert(w[i] == v[i]);
            }
        }
    }
}

/// Whether a zone of a list was found to be a wildcard with some property.
pub open spec fn some_wildcard(
    zones: Map<Seq<char>, ParentState>,
    list: Seq<Seq<char>>,
    p: spec_fn(SignatureView) -> bool,
) -> bool {
    exists|i: int|
        0 <= i < list.len() && (state_of(zones, #[trigger] list[i]) matches Some(
            StateView::Wildcard(s),
        ) && p(s))
}

/// A host is held against what all wildcards above it have: there is a signature exactly if
/// one of the zones is a wildcard, it has exactly the addresses and CNAME targets of those
/// that are, and its root is the nearest of them.
pub proof fn law_signatures_of_all_wildcards_are_united(
    zones: Map<Seq<char>, ParentState>,
    list: Seq<Seq<char>>,
)
    ensures
        ({
            let r = all_signatures(zones, list, None);
            &&& r is Some <==> some_wildcard(zones, list, |s: SignatureView| true)
            &&& r matches Some(t) ==> {
                &&& forall|ip: IpAddr| #[trigger]
                    t.ips.contains(ip) <==> some_wildcard(
                        zones,
                        list,
                        |s: SignatureView| s.ips.contains(ip),
                    )
                &&& forall|c: Seq<char>| #[trigger]
                    t.cnames.contains(c) <==> some_wildcard(
                        zones,
                        list,
                        |s: SignatureView| s.cnames.contains(c),
                    )
                &&& exists|i: int|
                    0 <= i < list.len() && (state_of(zones, #[trigger] list[i]) matches Some(
                        StateView::Wildcard(s),
                    ) && s.root == t.root) && forall|j: int|
                        0 <= j < i ==> !(state_of(zones, #[trigger] list[j]) matches Some(
                            StateView::Wildcard(_),
                        ))
            }
        }),
{
    lemma_united_from(zones, list, None);
    lemma_root_is_nearest(zones, list);
}

proof fn lemma_united_from(
    zones: Map<Seq<char>, ParentState>,
    list: Seq<Seq<char>>,
    from: Option<SignatureView>,
)
    ensures
        ({
            let r = all_signatures(zones, list, from);
            &&& r is Some <==> from is Some || some_wildcard(zones, list, |s: SignatureView| true)
            &&& from is Some ==> r->0.root == from->0.root
            &&& r matches Some(t) ==> {
                &&& forall|ip: IpAddr| #[trigger]
                    t.ips.contains(ip) <==> (from matches Some(f) && f.ips.contains(ip))
                        || some_wildcard(zones, list, |s: SignatureView| s.ips.contains(ip))
                &&& forall|c: Seq<char>| #[trigger]
                    t.cnames.contains(c) <==> (from matches Some(f) && f.cnames.contains(c))
                        || some_wildcard(zones, list, |s: SignatureView| s.cnames.contains(c))
            }
        }),
    decreases list.len(),
{
    if list.len() > 0 {
        let rest = list.skip(1);
        let state = state_of(zones, list[0]);
        let next = match state {
            Some(StateView::Wildcard(s)) => united_signature(from, s),
            _ => from,
        };
        lemma_united_from(zones, rest, next);
        if let Some(StateView::Wildcard(s)) = state {
            lemma_all_added(Seq::<IpAddr>::empty(), s.ips);
            lemma_all_added(Seq::<Seq<char>>::empty(), s.cnames);
            if let Some(f) = from {
                lemma_all_added(f.ips, s.ips);
                lemma_all_added(f.cnames, s.cnames);
            }
        }
        lemma_wildcard_step(zones, list, |s: SignatureView| true);
        assert forall|ip: IpAddr| #![trigger all_signatures(zones, list, from)->0.ips.contains(ip)]
            some_wildcard(zones, list, |s: SignatureView| s.ips.contains(ip)) <==> (state matches Some(
            StateView::Wildcard(s),
        ) && s.ips.contains(ip)) || some_wildcard(
            zones,
            rest,
            |s: SignatureView| s.ips.contains(ip),
        ) by {
            lemma_wildcard_step(zones, list, |s: SignatureView| s.ips.contains(ip));
        }
        assert forall|c: Seq<char>|
            #![trigger all_signatures(zones, list, from)->0.cnames.contains(c)]
            some_wildcard(zones, list, |s: SignatureView| s.cnames.contains(c)) <==> (
            state matches Some(StateView::Wildcard(s)) && s.cnames.contains(c)) || some_wildcard(
                zones,
                rest,
                |s: SignatureView| s.cnames.contains(c),
            ) by {
            lemma_wildcard_step(zones, list, |s: SignatureView| s.cnames.contains(c));
        }
    }
}

proof fn lemma_wildcard_step(
    zones: Map<Seq<char>, ParentState>,
    list: Seq<Seq<char>>,
    p: spec_fn(SignatureView) -> bool,
)
    requires
        list.len() > 0,
    ensures
        some_wildcard(zones, list, p) <==> (state_of(zones, list[0]) matches Some(
            StateView::Wildcard(s),
        ) && p(s)) || some_wildcard(zones, list.skip(1), p),
{
    let rest = list.skip(1);
    if some_wildcard(zones, rest, p) {
        let i = choose|i: int|
            0 <= i < rest.len() && (state_of(zones, #[trigger] rest[i]) matches Some(
                StateView::Wildcard(s),
            ) && p(s));
        assert(list[i + 1] == rest[i]);
    }
    if some_wildcard(zones, list, p) {
        let i = choose|i: int|
            0 <= i < list.len() && (state_of(zones, #[trigger] list[i]) matches Some(
                StateView::Wildcard(s),
            ) && p(s));
        if i > 0 {
            assert(rest[i - 1] == list[i]);
        }
    }
}

proof fn lemma_root_is_nearest(zones: Map<Seq<char>, ParentState>, list: Seq<Seq<char>>)
    ensures
        all_signatures(zones, list, None) matches Some(t) ==> exists|i: int|
            0 <= i < list.len() && (state_of(zones, #[trigger] list[i]) matches Some(
                StateView::Wildcard(s),
            ) && s.root == t.root) && forall|j: int|
                0 <= j < i ==> !(state_of(zones, #[trigger] list[j]) matches Some(
                    StateView::Wildcard(_),
                )),
    decreases list.len(),
{
    if list.len() > 0 && all_signatures(zones, list, None) is Some {
        let rest = list.skip(1);
        match state_of(zones, list[0]) {
            Some(StateView::Wildcard(s)) => {
                lemma_united_from(zones, rest, united_signature(None, s));
                assert(list[0] == list[0]);
            },
            _ => {
                lemma_root_is_nearest(zones, rest);
                let t = all_signatures(zones, rest, None)->0;
                let i = choose|i: int|
                    0 <= i < rest.len() && (state_of(zones, #[trigger] rest[i]) matches Some(
                        StateView::Wildcard(s),
                    ) && s.root == t.root) && forall|j: int|
                        0 <= j < i ==> !(state_of(zones, #[trigger] rest[j]) matches Some(
                            StateView::Wildcard(_),
                        ));
                assert(list[i + 1] == rest[i]);
                assert forall|j: int| 0 <= j < i + 1 implies !(state_of(
                    zones,
                    #[trigger] list[j],
                ) matches Some(StateView::Wildcard(_))) by {
                    if j > 0 {
                        assert(rest[j - 1] == list[j]);
                    }
                }
            },
        }
    }
}

/// The dead zone that stops a host is the nearest dead one above it, and there is one exactly
/// if one of them is dead.
pub proof fn law_nearest_dead_zone_is_named(
    zones: Map<Seq<char>, ParentState>,
    list: Seq<Seq<char>>,
)
    ensures
        first_dead(zones, list) is Some <==> exists|i: int|
            0 <= i < list.len() && state_of(zones, #[trigger] list[i]) == Some(StateView::Dead),
        first_dead(zones, list) matches Some(z) ==> exists|i: int|
            0 <= i < list.len() && #[trigger] list[i] == z && state_of(zones, z) == Some(
                StateView::Dead,
            ) && forall|j: int|
                0 <= j < i ==> state_of(zones, #[trigger] list[j]) != Some(StateView::Dead),
    decreases list.len(),
{
    if list.len() > 0 {
        let rest = list.skip(1);
        law_nearest_dead_zone_is_named(zones, rest);
        if state_of(zones, list[0]) == Some(StateView::Dead) {
            assert(list[0] == first_dead(zones, list)->0);
        } else {
            if let Some(z) = first_dead(zones, rest) {
                let i = choose|i: int|
                    0 <= i < rest.len() && #[trigger] rest[i] == z && state_of(zones, z) == Some(
                        StateView::Dead,
                    ) && forall|j: int|
                        0 <= j < i ==> state_of(zones, #[trigger] rest[j]) != Some(
                            StateView::Dead,
                        );
                assert(list[i + 1] == z);
                assert forall|j: int| 0 <= j < i + 1 implies state_of(zones, #[trigger] list[j])
                    != Some(StateView::Dead) by {
                    if j > 0 {
                        assert(rest[j - 1] == list[j]);
                    }
                }
            }
            if exists|i: int|
                0 <= i < list.len() && state_of(zones, #[trigger] list[i]) == Some(StateView::Dead) {
                let i = choose|i: int|
                    0 <= i < list.len() && state_of(zones, #[trigger] list[i]) == Some(
                        StateView::Dead,
                    );
                assert(rest[i - 1] == list[i]);
            }
        }
    }
}

/// The zones above a host come from the nearest to the farthest, each shorter than the one
/// before; the nearest is its parent.
pub proof fn law_nearest_zone_comes_first(host: Seq<char>)
    ensures
        parent(host) is Some <==> ancestors(host).len() > 0,
        parent(host) matches Some(p) ==> ancestors(host)[0] == p,
        forall|i: int, j: int|
            0 <= i < j < ancestors(host).len() ==> (#[trigger] ancestors(host)[i]).len() > (
            #[trigger] ancestors(host)[j]).len(),
    decreases host.len(),
{
    if let Some(p) = parent(host) {
        lemma_parent_is_shorter(host);
        law_nearest_zone_comes_first(p);
        law_ancestors_are_proper_zones(p);
        let all = ancestors(host);
        assert forall|i: int, j: int| 0 <= i < j < all.len() implies (#[trigger] all[i]).len() > (
        #[trigger] all[j]).len() by {
            assert(all[j] == ancestors(p)[j - 1]);
            if i > 0 {
                assert(all[i] == ancestors(p)[i - 1]);
            }
        }
    }
}

/// Exactly apexes, subdomains and addresses are asked for: of classified inputs these have a
/// name to ask for, and garbage and wildcards have none.
pub proof fn law_hosts_have_a_name_to_ask_for(n: NormalizedView, registrable: Option<Seq<char>>)
    ensures
        ({
            let a = classified(n, registrable);
            &&& a.host() <==> !(a.kind is Garbage) && !(a.kind is Wildcard)
            &&& a.host() <==> query_host(a) is Some
        }),
{
    let a = classified(n, registrable);
    if a.host() {
        law_hosts_are_asked_for_without_port(n, registrable);
    }
}

} // verus!

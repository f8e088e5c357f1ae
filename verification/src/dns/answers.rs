//! What resolvers answered, one by one and together.

use vstd::prelude::*;

use crate::cdn::{normalize_cname, plain_name};
use crate::ip::{add_ips, copy_ips, holds_ip, IpAddr};
use crate::lists::{
    add_all_unique, add_unique, added, all_added, lemma_all_added, lemma_tally_bound,
    lemma_tally_some, sort_texts, sorted_texts, tally,
};
use crate::text::{copy_texts, same_str, texts};

verus! {

/// What one resolver, or several together, answered for a host.
#[derive(Debug, Clone)]
pub struct HostAnswers {
    /// Addresses, each once.
    pub ips: Vec<IpAddr>,
    /// CNAME chain: the first alias first, the final target last.
    pub cnames: Vec<String>,
    pub any_answer: bool,
    pub all_nxdomain: bool,
    pub any_timeout: bool,
    pub any_error: bool,
    /// One resolver returned answers, another NXDOMAIN.
    pub disagreement: bool,
    pub answer_count: usize,
    pub nxdomain_count: usize,
    pub timeout_count: usize,
    pub error_count: usize,
    pub distinct_ip_sets: usize,
    pub distinct_cname_sets: usize,
}

/// What answers say.
pub struct AnswersView {
    pub ips: Seq<IpAddr>,
    pub cnames: Seq<Seq<char>>,
    pub any_answer: bool,
    pub all_nxdomain: bool,
    pub any_timeout: bool,
    pub any_error: bool,
    pub disagreement: bool,
    pub answer_count: int,
    pub nxdomain_count: int,
    pub timeout_count: int,
    pub error_count: int,
    pub distinct_ip_sets: int,
    pub distinct_cname_sets: int,
}

impl AnswersView {
    /// Whether no address is listed twice.
    pub open spec fn wf(self) -> bool {
        self.ips.no_duplicates()
    }
}

impl View for HostAnswers {
    type V = AnswersView;

    open spec fn view(&self) -> AnswersView {
        AnswersView {
            ips: self.ips@,
            cnames: texts(self.cnames@),
            any_answer: self.any_answer,
            all_nxdomain: self.all_nxdomain,
            any_timeout: self.any_timeout,
            any_error: self.any_error,
            disagreement: self.disagreement,
            answer_count: self.answer_count as int,
            nxdomain_count: self.nxdomain_count as int,
            timeout_count: self.timeout_count as int,
            error_count: self.error_count as int,
            distinct_ip_sets: self.distinct_ip_sets as int,
            distinct_cname_sets: self.distinct_cname_sets as int,
        }
    }
}

/// What a list of answers says.
pub open spec fn answers_views(v: Seq<HostAnswers>) -> Seq<AnswersView> {
    v.map_values(|a: HostAnswers| a@)
}

/// No answer at all.
pub open spec fn silence() -> AnswersView {
    AnswersView {
        ips: Seq::empty(),
        cnames: Seq::empty(),
        any_answer: false,
        all_nxdomain: false,
        any_timeout: false,
        any_error: false,
        disagreement: false,
        answer_count: 0,
        nxdomain_count: 0,
        timeout_count: 0,
        error_count: 0,
        distinct_ip_sets: 0,
        distinct_cname_sets: 0,
    }
}

impl Default for HostAnswers {
    fn default() -> (r: Self)
        ensures
            r@ == silence(),
            r@.wf(),
    {
        let r = HostAnswers {
            ips: Vec::new(),
            cnames: Vec::new(),
            any_answer: false,
            all_nxdomain: false,
            any_timeout: false,
            any_error: false,
            disagreement: false,
            answer_count: 0,
            nxdomain_count: 0,
            timeout_count: 0,
            error_count: 0,
            distinct_ip_sets: 0,
            distinct_cname_sets: 0,
        };
        assert(r@.cnames =~= Seq::empty());
        r
    }
}

impl HostAnswers {
    /// A copy of the answers.
    pub fn duplicate(&self) -> (r: Self)
        ensures
            r@ == self@,
    {
        HostAnswers {
            ips: copy_ips(&self.ips),
            cnames: copy_texts(&self.cnames),
            any_answer: self.any_answer,
            all_nxdomain: self.all_nxdomain,
            any_timeout: self.any_timeout,
            any_error: self.any_error,
            disagreement: self.disagreement,
            answer_count: self.answer_count,
            nxdomain_count: self.nxdomain_count,
            timeout_count: self.timeout_count,
            error_count: self.error_count,
            distinct_ip_sets: self.distinct_ip_sets,
            distinct_cname_sets: self.distinct_cname_sets,
        }
    }
}

// ---------------------------------------------------------------------------
// One resolver

/// A record of an answer section.
#[derive(Debug, Clone)]
pub enum DnsRecord {
    A(u32),
    Aaaa(u128),
    Cname(String),
    Other,
}

/// Why a lookup failed.
#[derive(Debug, Clone, Copy, PartialEq, Eq, Structural)]
pub enum LookupError {
    Timeout,
    NoRecords,
    Other,
}

/// What a lookup brought.
#[derive(Debug, Clone)]
pub enum LookupOutcome {
    Records(Vec<DnsRecord>),
    Failed(LookupError),
}

/// The address of a record.
pub open spec fn record_ip(r: DnsRecord) -> Seq<IpAddr> {
    match r {
        DnsRecord::A(a) => seq![IpAddr::V4(a)],
        DnsRecord::Aaaa(a) => seq![IpAddr::V6(a)],
        _ => Seq::empty(),
    }
}

/// The target of a record.
pub open spec fn record_cname(r: DnsRecord) -> Seq<Seq<char>> {
    match r {
        DnsRecord::Cname(s) => seq![plain_name(s@)],
        _ => Seq::empty(),
    }
}

/// The addresses of records, each once.
pub open spec fn record_ips(v: Seq<DnsRecord>) -> Seq<IpAddr>
    decreases v.len(),
{
    if v.len() == 0 {
        Seq::empty()
    } else {
        all_added(record_ips(v.drop_last()), record_ip(v.last()))
    }
}

/// The targets of records, each once, in their order.
pub open spec fn record_cnames(v: Seq<DnsRecord>) -> Seq<Seq<char>>
    decreases v.len(),
{
    if v.len() == 0 {
        Seq::empty()
    } else {
        all_added(record_cnames(v.drop_last()), record_cname(v.last()))
    }
}

/// What a lookup means.
pub open spec fn answered(o: LookupOutcome) -> AnswersView {
    match o {
        LookupOutcome::Records(v) => AnswersView {
            ips: record_ips(v@),
            cnames: record_cnames(v@),
            any_answer: record_ips(v@).len() > 0 || record_cnames(v@).len() > 0,
            ..silence()
        },
        LookupOutcome::Failed(e) => AnswersView {
            all_nxdomain: e is NoRecords,
            any_timeout: e is Timeout,
            any_error: e is Other,
            ..silence()
        },
    }
}

proof fn lemma_added_one<A>(out: Seq<A>, x: A)
    ensures
        all_added(out, seq![x]) == added(out, x),
        all_added(out, Seq::empty()) == out,
{
    assert(seq![x].drop_last() =~= Seq::empty());
    assert(all_added(out, Seq::empty()) == out);
}

/// Reads what a lookup means: its addresses and CNAME targets, or why it failed.
pub fn answers_of(outcome: LookupOutcome) -> (r: HostAnswers)
    ensures
        r@ == answered(outcome),
        r@.wf(),
{
    let mut r = HostAnswers::default();
    match outcome {
        LookupOutcome::Records(v) => {
            let mut i: usize = 0;
            assert(v@.take(0) =~= Seq::empty());
            while i < v.len()
                invariant
                    i <= v@.len(),
                    r@ == (AnswersView {
                        ips: record_ips(v@.take(i as int)),
                        cnames: record_cnames(v@.take(i as int)),
                        ..silence()
                    }),
                    r@.ips.no_duplicates(),
                decreases v.len() - i,
            {
                assert(v@.take(i + 1).drop_last() =~= v@.take(i as int));
                assert(v@.take(i + 1).last() == v@[i as int]);
                let ghost (ips, cnames) = (r@.ips, r@.cnames);
                match &v[i] {
                    DnsRecord::A(a) => {
                        let ip = IpAddr::V4(*a);
                        proof {
                            lemma_added_one(ips, ip);
                            lemma_added_one(cnames, seq!['x']);
                            crate::lists::lemma_added(ips, ip);
                        }
                        if !holds_ip(&r.ips, ip) {
                            r.ips.push(ip);
                        }
                    },
                    DnsRecord::Aaaa(a) => {
                        let ip = IpAddr::V6(*a);
                        proof {
                            lemma_added_one(ips, ip);
                            lemma_added_one(cnames, seq!['x']);
                            crate::lists::lemma_added(ips, ip);
                        }
                        if !holds_ip(&r.ips, ip) {
                            r.ips.push(ip);
                        }
                    },
                    DnsRecord::Cname(s) => {
                        let name = normalize_cname(s.as_str());
                        proof {
                            lemma_added_one(cnames, name@);
                            lemma_added_one(ips, IpAddr::V4(0));
                        }
                        add_unique(&mut r.cnames, name);
                    },
                    DnsRecord::Other => {
                        proof {
                            lemma_added_one(cnames, seq!['x']);
                            lemma_added_one(ips, IpAddr::V4(0));
                        }
                    },
                }
                i += 1;
            }
            assert(v@.take(i as int) =~= v@);
            r.any_answer = r.ips.len() > 0 || r.cnames.len() > 0;
        },
        LookupOutcome::Failed(e) => {
            r.all_nxdomain = e == LookupError::NoRecords;
            r.any_timeout = e == LookupError::Timeout;
            r.any_error = e == LookupError::Other;
        },
    }
    r
}

// ---------------------------------------------------------------------------
// Several resolvers

/// The addresses of all answers, each once.
pub open spec fn united_ips(v: Seq<AnswersView>) -> Seq<IpAddr>
    decreases v.len(),
{
    if v.len() == 0 {
        Seq::empty()
    } else {
        all_added(united_ips(v.drop_last()), v.last().ips)
    }
}

/// The CNAME targets of all answers, each once, in the order in which they were seen.
pub open spec fn united_cnames(v: Seq<AnswersView>) -> Seq<Seq<char>>
    decreases v.len(),
{
    if v.len() == 0 {
        Seq::empty()
    } else {
        all_added(united_cnames(v.drop_last()), v.last().cnames)
    }
}

/// The different address sets among the answers.
pub open spec fn ip_sets(v: Seq<AnswersView>) -> Seq<Set<IpAddr>>
    decreases v.len(),
{
    if v.len() == 0 {
        Seq::empty()
    } else if v.last().any_answer {
        added(ip_sets(v.drop_last()), v.last().ips.to_set())
    } else {
        ip_sets(v.drop_last())
    }
}

/// The different CNAME lists among the answers, whatever their order.
pub open spec fn cname_sets(v: Seq<AnswersView>) -> Seq<Seq<Seq<char>>>
    decreases v.len(),
{
    if v.len() == 0 {
        Seq::empty()
    } else if v.last().any_answer {
        added(cname_sets(v.drop_last()), sorted_texts(v.last().cnames))
    } else {
        cname_sets(v.drop_last())
    }
}

/// How many resolvers returned answers.
pub open spec fn answer_total(v: Seq<AnswersView>) -> nat {
    tally(v, |a: AnswersView| a.any_answer)
}

/// How many resolvers returned NXDOMAIN and no answer.
pub open spec fn nxdomain_total(v: Seq<AnswersView>) -> nat {
    tally(v, |a: AnswersView| !a.any_answer && a.all_nxdomain)
}

/// How many resolvers timed out.
pub open spec fn timeout_total(v: Seq<AnswersView>) -> nat {
    tally(v, |a: AnswersView| a.any_timeout)
}

/// How many resolvers failed otherwise.
pub open spec fn error_total(v: Seq<AnswersView>) -> nat {
    tally(v, |a: AnswersView| a.any_error)
}

/// What several resolvers say together.
pub open spec fn merged_answers(v: Seq<AnswersView>) -> AnswersView {
    AnswersView {
        ips: united_ips(v),
        cnames: united_cnames(v),
        any_answer: answer_total(v) > 0,
        all_nxdomain: v.len() > 0 && nxdomain_total(v) == v.len(),
        any_timeout: timeout_total(v) > 0,
        any_error: error_total(v) > 0,
        disagreement: answer_total(v) > 0 && nxdomain_total(v) > 0,
        answer_count: answer_total(v) as int,
        nxdomain_count: nxdomain_total(v) as int,
        timeout_count: timeout_total(v) as int,
        error_count: error_total(v) as int,
        distinct_ip_sets: ip_sets(v).len() as int,
        distinct_cname_sets: cname_sets(v).len() as int,
    }
}

fn is_subset(a: &Vec<IpAddr>, b: &Vec<IpAddr>) -> (r: bool)
    ensures
        r == a@.to_set().subset_of(b@.to_set()),
{
    let mut i: usize = 0;
    while i < a.len()
        invariant
            i <= a@.len(),
            forall|j: int| 0 <= j < i ==> b@.contains(#[trigger] a@[j]),
        decreases a.len() - i,
    {
        if !holds_ip(b, a[i]) {
            assert(a@.to_set().contains(a@[i as int]));
            assert(!b@.to_set().contains(a@[i as int]));
            return false;
        }
        i += 1;
    }
    assert forall|x: IpAddr| a@.to_set().contains(x) implies b@.to_set().contains(x) by {
        let j = choose|j: int| 0 <= j < a@.len() && a@[j] == x;
        assert(b@.contains(a@[j]));
    }
    true
}

fn same_list(a: &Vec<String>, b: &Vec<String>) -> (r: bool)
    ensures
        r == (texts(a@) == texts(b@)),
{
    if a.len() != b.len() {
        assert(texts(a@).len() != texts(b@).len());
        return false;
    }
    let mut i: usize = 0;
    while i < a.len()
        invariant
            i <= a@.len(),
            a@.len() == b@.len(),
            forall|j: int| 0 <= j < i ==> a@[j]@ == b@[j]@,
        decreases a.len() - i,
    {
        if !same_str(a[i].as_str(), b[i].as_str()) {
            assert(texts(a@)[i as int] != texts(b@)[i as int]);
            return false;
        }
        i += 1;
    }
    assert(texts(a@) =~= texts(b@));
    true
}

/// Lists of addresses, no two of which are the same set.
struct IpSets {
    sets: Vec<Vec<IpAddr>>,
}

impl IpSets {
    spec fn view(self) -> Seq<Set<IpAddr>> {
        self.sets@.map_values(|v: Vec<IpAddr>| v@.to_set())
    }

    fn add(&mut self, ips: &Vec<IpAddr>)
        ensures
            final(self).view() == added(old(self).view(), ips@.to_set()),
    {
        let mut i: usize = 0;
        while i < self.sets.len()
            invariant
                i <= self.sets@.len(),
                self.view() == old(self).view(),
                forall|j: int| 0 <= j < i ==> self.view()[j] != ips@.to_set(),
            decreases self.sets.len() - i,
        {
            if is_subset(&self.sets[i], ips) && is_subset(ips, &self.sets[i]) {
                assert(self.view()[i as int] =~= ips@.to_set());
                return;
            }
            i += 1;
        }
        self.sets.push(copy_ips(ips));
        assert(self.view() =~= old(self).view().push(ips@.to_set()));
    }
}

/// Sorted lists of names, no two of which are the same.
struct NameLists {
    lists: Vec<Vec<String>>,
}

impl NameLists {
    spec fn view(self) -> Seq<Seq<Seq<char>>> {
        self.lists@.map_values(|v: Vec<String>| texts(v@))
    }

    fn add(&mut self, names: &Vec<String>)
        ensures
            final(self).view() == added(old(self).view(), sorted_texts(texts(names@))),
    {
        let sorted = sort_texts(names);
        let mut i: usize = 0;
        while i < self.lists.len()
            invariant
                i <= self.lists@.len(),
                self.view() == old(self).view(),
                texts(sorted@) == sorted_texts(texts(names@)),
                forall|j: int| 0 <= j < i ==> self.view()[j] != texts(sorted@),
            decreases self.lists.len() - i,
        {
            if same_list(&self.lists[i], &sorted) {
                assert(self.view()[i as int] == texts(sorted@));
                return;
            }
            i += 1;
        }
        self.lists.push(sorted);
        assert(self.view() =~= old(self).view().push(texts(sorted@)));
    }
}

proof fn lemma_sets_bound(v: Seq<AnswersView>)
    ensures
        ip_sets(v).len() <= v.len(),
        cname_sets(v).len() <= v.len(),
    decreases v.len(),
{
    if v.len() > 0 {
        lemma_sets_bound(v.drop_last());
    }
}

/// Puts the answers of several resolvers together.
pub fn merge_answers(results: &Vec<HostAnswers>) -> (r: HostAnswers)
    ensures
        r@ == merged_answers(answers_views(results@)),
        r@.wf(),
{
    let ghost all = answers_views(results@);
    let mut m = HostAnswers::default();
    let mut ips = IpSets { sets: Vec::new() };
    let mut names = NameLists { lists: Vec::new() };
    assert(all.take(0) =~= Seq::empty());
    assert(ips.view() =~= Seq::empty());
    assert(names.view() =~= Seq::empty());
    let mut i: usize = 0;
    while i < results.len()
        invariant
            i <= results@.len(),
            all == answers_views(results@),
            m@.ips == united_ips(all.take(i as int)),
            m@.ips.no_duplicates(),
            m@.cnames == united_cnames(all.take(i as int)),
            m.answer_count == answer_total(all.take(i as int)),
            m.nxdomain_count == nxdomain_total(all.take(i as int)),
            m.timeout_count == timeout_total(all.take(i as int)),
            m.error_count == error_total(all.take(i as int)),
            ips.view() == ip_sets(all.take(i as int)),
            names.view() == cname_sets(all.take(i as int)),
        decreases results.len() - i,
    {
        let a = &results[i];
        let ghost before = all.take(i as int);
        assert(all.take(i + 1).drop_last() =~= before);
        assert(all.take(i + 1).last() == a@);
        proof {
            lemma_all_added(m@.ips, a@.ips);
            lemma_tally_bound(before, |a: AnswersView| a.any_answer);
            lemma_tally_bound(before, |a: AnswersView| !a.any_answer && a.all_nxdomain);
            lemma_tally_bound(before, |a: AnswersView| a.any_timeout);
            lemma_tally_bound(before, |a: AnswersView| a.any_error);
        }
        add_ips(&mut m.ips, &a.ips);
        add_all_unique(&mut m.cnames, &a.cnames);
        if a.any_answer {
            m.answer_count += 1;
            ips.add(&a.ips);
            names.add(&a.cnames);
        } else if a.all_nxdomain {
            m.nxdomain_count += 1;
        }
        if a.any_timeout {
            m.timeout_count += 1;
        }
        if a.any_error {
            m.error_count += 1;
        }
        i += 1;
    }
    assert(all.take(i as int) =~= all);
    proof {
        lemma_sets_bound(all);
    }
    m.any_answer = m.answer_count > 0;
    m.all_nxdomain = results.len() > 0 && m.nxdomain_count == results.len();
    m.any_timeout = m.timeout_count > 0;
    m.any_error = m.error_count > 0;
    m.disagreement = m.answer_count > 0 && m.nxdomain_count > 0;
    m.distinct_ip_sets = ips.sets.len();
    m.distinct_cname_sets = names.lists.len();
    m
}

/// What a single resolver says is what it says together with nobody else, up to the
/// counts.
pub proof fn law_merging_one_answer(a: AnswersView)
    requires
        a.ips.no_duplicates(),
        a.cnames.no_duplicates(),
        !(a.any_answer && a.all_nxdomain),
    ensures
        merged_answers(seq![a]).ips == a.ips,
        merged_answers(seq![a]).cnames == a.cnames,
        merged_answers(seq![a]).any_answer == a.any_answer,
        merged_answers(seq![a]).all_nxdomain == a.all_nxdomain,
        merged_answers(seq![a]).any_timeout == a.any_timeout,
        merged_answers(seq![a]).any_error == a.any_error,
        !merged_answers(seq![a]).disagreement,
{
    let v = seq![a];
    assert(v.drop_last() =~= Seq::empty());
    lemma_added_to_nothing(a.ips);
    lemma_added_to_nothing(a.cnames);
    assert(tally(v.drop_last(), |a: AnswersView| a.any_answer) == 0);
    assert(tally(v.drop_last(), |a: AnswersView| !a.any_answer && a.all_nxdomain) == 0);
    assert(tally(v.drop_last(), |a: AnswersView| a.any_timeout) == 0);
    assert(tally(v.drop_last(), |a: AnswersView| a.any_error) == 0);
    assert(united_ips(v.drop_last()) =~= Seq::empty());
    assert(united_cnames(v.drop_last()) =~= Seq::empty());
}

proof fn lemma_added_to_nothing<A>(xs: Seq<A>)
    requires
        xs.no_duplicates(),
    ensures
        all_added(Seq::empty(), xs) == xs,
    decreases xs.len(),
{
    if xs.len() > 0 {
        let rest = xs.drop_last();
        lemma_added_to_nothing(rest);
        assert(!rest.contains(xs.last()));
        assert(rest.push(xs.last()) =~= xs);
    } else {
        assert(xs =~= Seq::empty());
    }
}

/// The addresses that several resolvers say together are those that one of them says,
/// and so are the CNAME targets.
pub proof fn law_merging_keeps_every_answer(v: Seq<AnswersView>)
    ensures
        forall|ip: IpAddr| #[trigger]
            merged_answers(v).ips.contains(ip) <==> exists|i: int|
                0 <= i < v.len() && (#[trigger] v[i]).ips.contains(ip),
        forall|c: Seq<char>| #[trigger]
            merged_answers(v).cnames.contains(c) <==> exists|i: int|
                0 <= i < v.len() && (#[trigger] v[i]).cnames.contains(c),
    decreases v.len(),
{
    if v.len() > 0 {
        let rest = v.drop_last();
        law_merging_keeps_every_answer(rest);
        lemma_all_added(united_ips(rest), v.last().ips);
        lemma_all_added(united_cnames(rest), v.last().cnames);
        assert forall|ip: IpAddr| #[trigger] merged_answers(v).ips.contains(ip) <==> exists|i: int|
            0 <= i < v.len() && (#[trigger] v[i]).ips.contains(ip) by {
            assert(merged_answers(rest).ips.contains(ip) <==> exists|i: int|
                0 <= i < rest.len() && (#[trigger] rest[i]).ips.contains(ip));
            if exists|i: int| 0 <= i < rest.len() && (#[trigger] rest[i]).ips.contains(ip) {
                let i = choose|i: int| 0 <= i < rest.len() && (#[trigger] rest[i]).ips.contains(ip);
                assert(v[i].ips.contains(ip));
            }
            if exists|i: int| 0 <= i < v.len() && (#[trigger] v[i]).ips.contains(ip) {
                let i = choose|i: int| 0 <= i < v.len() && (#[trigger] v[i]).ips.contains(ip);
                if i < rest.len() {
                    assert(rest[i].ips.contains(ip));
                }
            }
            if v.last().ips.contains(ip) {
                assert(v[v.len() - 1].ips.contains(ip));
            }
        }
        assert forall|c: Seq<char>| #[trigger] merged_answers(v).cnames.contains(c) <==> exists|
            i: int,
        |
            0 <= i < v.len() && (#[trigger] v[i]).cnames.contains(c) by {
            assert(merged_answers(rest).cnames.contains(c) <==> exists|i: int|
                0 <= i < rest.len() && (#[trigger] rest[i]).cnames.contains(c));
            if exists|i: int| 0 <= i < rest.len() && (#[trigger] rest[i]).cnames.contains(c) {
                let i = choose|i: int| 0 <= i < rest.len() && (#[trigger] rest[i]).cnames.contains(c);
                assert(v[i].cnames.contains(c));
            }
            if exists|i: int| 0 <= i < v.len() && (#[trigger] v[i]).cnames.contains(c) {
                let i = choose|i: int| 0 <= i < v.len() && (#[trigger] v[i]).cnames.contains(c);
                if i < rest.len() {
                    assert(rest[i].cnames.contains(c));
                }
            }
            if v.last().cnames.contains(c) {
                assert(v[v.len() - 1].cnames.contains(c));
            }
        }
    }
}

/// What several resolvers say together follows from what each of them says: there is an
/// answer, a timeout or an error if one of them has it, the name does not exist if all of them
/// say so, and they disagree if one answers where another says that the name does not exist.
pub proof fn law_merging_by_each_answer(v: Seq<AnswersView>)
    ensures
        ({
            let m = merged_answers(v);
            &&& m.any_answer <==> exists|i: int| 0 <= i < v.len() && (#[trigger] v[i]).any_answer
            &&& m.any_timeout <==> exists|i: int| 0 <= i < v.len() && (#[trigger] v[i]).any_timeout
            &&& m.any_error <==> exists|i: int| 0 <= i < v.len() && (#[trigger] v[i]).any_error
            &&& m.all_nxdomain <==> v.len() > 0 && forall|i: int|
                0 <= i < v.len() ==> (#[trigger] v[i]).all_nxdomain && !v[i].any_answer
            &&& m.disagreement <==> (exists|i: int|
                0 <= i < v.len() && (#[trigger] v[i]).any_answer) && (exists|i: int|
                0 <= i < v.len() && (#[trigger] v[i]).all_nxdomain && !v[i].any_answer)
        }),
{
    lemma_some_of(v, |a: AnswersView| a.any_answer);
    lemma_some_of(v, |a: AnswersView| a.any_timeout);
    lemma_some_of(v, |a: AnswersView| a.any_error);
    lemma_some_of(v, |a: AnswersView| !a.any_answer && a.all_nxdomain);
}

proof fn lemma_some_of(v: Seq<AnswersView>, p: spec_fn(AnswersView) -> bool)
    ensures
        tally(v, p) > 0 <==> exists|i: int| 0 <= i < v.len() && p(#[trigger] v[i]),
        tally(v, p) == v.len() <==> forall|i: int| 0 <= i < v.len() ==> p(#[trigger] v[i]),
{
    lemma_tally_some(v, p);
    if exists|x: AnswersView| v.contains(x) && p(x) {
        let x = choose|x: AnswersView| v.contains(x) && p(x);
        let i = choose|i: int| 0 <= i < v.len() && v[i] == x;
        assert(p(v[i]));
    }
    if exists|i: int| 0 <= i < v.len() && p(#[trigger] v[i]) {
        let i = choose|i: int| 0 <= i < v.len() && p(#[trigger] v[i]);
        assert(v.contains(v[i]) && p(v[i]));
    }
    if forall|x: AnswersView| v.contains(x) ==> p(x) {
        assert forall|i: int| 0 <= i < v.len() implies p(#[trigger] v[i]) by {
            assert(v.contains(v[i]));
        }
    }
}

/// One more resolver adds one to each count that its answer belongs to. It brings another
/// address set exactly if it answers with a set that no other answer has.
pub proof fn law_merging_counts_each_answer(v: Seq<AnswersView>, a: AnswersView)
    ensures
        ({
            let m = merged_answers(v);
            let n = merged_answers(v.push(a));
            &&& n.answer_count == m.answer_count + (if a.any_answer {
                1int
            } else {
                0
            })
            &&& n.nxdomain_count == m.nxdomain_count + (if a.all_nxdomain && !a.any_answer {
                1int
            } else {
                0
            })
            &&& n.timeout_count == m.timeout_count + (if a.any_timeout {
                1int
            } else {
                0
            })
            &&& n.error_count == m.error_count + (if a.any_error {
                1int
            } else {
                0
            })
            &&& n.distinct_ip_sets == m.distinct_ip_sets + (if a.any_answer && !(exists|i: int|
                0 <= i < v.len() && (#[trigger] v[i]).any_answer && v[i].ips.to_set()
                    == a.ips.to_set()) {
                1int
            } else {
                0
            })
            &&& n.distinct_cname_sets == m.distinct_cname_sets + (if a.any_answer && !(exists|
                i: int,
            |
                0 <= i < v.len() && (#[trigger] v[i]).any_answer && sorted_texts(v[i].cnames)
                    == sorted_texts(a.cnames)) {
                1int
            } else {
                0
            })
        }),
        merged_answers(Seq::empty()) == silence(),
{
    assert(v.push(a).drop_last() =~= v);
    lemma_sets(v);
}

proof fn lemma_sets(v: Seq<AnswersView>)
    ensures
        forall|s: Set<IpAddr>| #[trigger]
            ip_sets(v).contains(s) <==> exists|i: int|
                0 <= i < v.len() && (#[trigger] v[i]).any_answer && v[i].ips.to_set() == s,
        forall|s: Seq<Seq<char>>| #[trigger]
            cname_sets(v).contains(s) <==> exists|i: int|
                0 <= i < v.len() && (#[trigger] v[i]).any_answer && sorted_texts(v[i].cnames) == s,
    decreases v.len(),
{
    if v.len() > 0 {
        let w = v.drop_last();
        let a = v[v.len() - 1];
        lemma_sets(w);
        crate::lists::lemma_added(ip_sets(w), a.ips.to_set());
        crate::lists::lemma_added(cname_sets(w), sorted_texts(a.cnames));
        assert forall|s: Set<IpAddr>| #[trigger] ip_sets(v).contains(s) <==> exists|i: int|
            0 <= i < v.len() && (#[trigger] v[i]).any_answer && v[i].ips.to_set() == s by {
            if ip_sets(w).contains(s) {
                let i = choose|i: int|
                    0 <= i < w.len() && (#[trigger] w[i]).any_answer && w[i].ips.to_set() == s;
                assert(v[i] == w[i]);
            }
            if exists|i: int|
                0 <= i < v.len() && (#[trigger] v[i]).any_answer && v[i].ips.to_set() == s {
                let i = choose|i: int|
                    0 <= i < v.len() && (#[trigger] v[i]).any_answer && v[i].ips.to_set() == s;
                if i < w.len() {
                    assert(w[i] == v[i]);
                }
            }
        }
        assert forall|s: Seq<Seq<char>>| #[trigger] cname_sets(v).contains(s) <==> exists|i: int|
            0 <= i < v.len() && (#[trigger] v[i]).any_answer && sorted_texts(v[i].cnames) == s by {
            if cname_sets(w).contains(s) {
                let i = choose|i: int|
                    0 <= i < w.len() && (#[trigger] w[i]).any_answer && sorted_texts(w[i].cnames)
                        == s;
                assert(v[i] == w[i]);
            }
            if exists|i: int|
                0 <= i < v.len() && (#[trigger] v[i]).any_answer && sorted_texts(v[i].cnames) == s {
                let i = choose|i: int|
                    0 <= i < v.len() && (#[trigger] v[i]).any_answer && sorted_texts(v[i].cnames)
                        == s;
                if i < w.len() {
                    assert(w[i] == v[i]);
                }
            }
        }
    }
}

/// What a lookup means: every address record and every alias of an answer is found in it, and
/// it is an answer exactly if it has one. A lookup that fails brings nothing and is exactly
/// one of NXDOMAIN, a timeout and an error, or none.
pub proof fn law_lookups_are_read_in_full(v: Seq<DnsRecord>, e: LookupError, o: LookupOutcome)
    requires
        o matches LookupOutcome::Records(r) ==> r@ == v,
        o matches LookupOutcome::Failed(f) ==> f == e,
    ensures
        ({
            let a = answered(o);
            &&& o is Records ==> {
                &&& forall|x: u32| #[trigger]
                    a.ips.contains(IpAddr::V4(x)) <==> v.contains(DnsRecord::A(x))
                &&& forall|x: u128| #[trigger]
                    a.ips.contains(IpAddr::V6(x)) <==> v.contains(DnsRecord::Aaaa(x))
                &&& forall|c: Seq<char>| #[trigger]
                    a.cnames.contains(c) <==> exists|i: int|
                        0 <= i < v.len() && (#[trigger] v[i] matches DnsRecord::Cname(s)
                            && plain_name(s@) == c)
                &&& a.any_answer <==> a.ips.len() > 0 || a.cnames.len() > 0
                &&& !a.all_nxdomain && !a.any_timeout && !a.any_error
            }
            &&& o is Failed ==> {
                &&& a.ips.len() == 0 && a.cnames.len() == 0 && !a.any_answer
                &&& a.all_nxdomain <==> e is NoRecords
                &&& a.any_timeout <==> e is Timeout
                &&& a.any_error <==> e is Other
            }
            &&& !a.disagreement
        }),
{
    lemma_records(v);
}

proof fn lemma_records(v: Seq<DnsRecord>)
    ensures
        forall|x: u32| #[trigger]
            record_ips(v).contains(IpAddr::V4(x)) <==> v.contains(DnsRecord::A(x)),
        forall|x: u128| #[trigger]
            record_ips(v).contains(IpAddr::V6(x)) <==> v.contains(DnsRecord::Aaaa(x)),
        forall|c: Seq<char>| #[trigger]
            record_cnames(v).contains(c) <==> exists|i: int|
                0 <= i < v.len() && (#[trigger] v[i] matches DnsRecord::Cname(s) && plain_name(s@)
                    == c),
    decreases v.len(),
{
    if v.len() > 0 {
        let w = v.drop_last();
        let r = v[v.len() - 1];
        lemma_records(w);
        lemma_all_added(record_ips(w), record_ip(r));
        lemma_all_added(record_cnames(w), record_cname(r));
        assert(v =~= w.push(r));
        assert forall|x: u32| #[trigger] record_ips(v).contains(IpAddr::V4(x)) <==> v.contains(
            DnsRecord::A(x),
        ) by {
            crate::lists::lemma_push_contains(w, r, DnsRecord::A(x));
            if r == DnsRecord::A(x) {
                assert(record_ip(r)[0] == IpAddr::V4(x));
            }
        }
        assert forall|x: u128| #[trigger] record_ips(v).contains(IpAddr::V6(x)) <==> v.contains(
            DnsRecord::Aaaa(x),
        ) by {
            crate::lists::lemma_push_contains(w, r, DnsRecord::Aaaa(x));
            if r == DnsRecord::Aaaa(x) {
                assert(record_ip(r)[0] == IpAddr::V6(x));
            }
        }
        assert forall|c: Seq<char>| #[trigger] record_cnames(v).contains(c) <==> exists|i: int|
            0 <= i < v.len() && (#[trigger] v[i] matches DnsRecord::Cname(s) && plain_name(s@)
                == c) by {
            if record_cnames(w).contains(c) {
                let i = choose|i: int|
                    0 <= i < w.len() && (#[trigger] w[i] matches DnsRecord::Cname(s) && plain_name(
                        s@,
                    ) == c);
                assert(v[i] == w[i]);
            }
            if record_cname(r).contains(c) {
                assert(v[v.len() - 1] matches DnsRecord::Cname(s) && plain_name(s@) == c);
            }
            if exists|i: int|
                0 <= i < v.len() && (#[trigger] v[i] matches DnsRecord::Cname(s) && plain_name(s@)
                    == c) {
                let i = choose|i: int|
                    0 <= i < v.len() && (#[trigger] v[i] matches DnsRecord::Cname(s) && plain_name(
                        s@,
                    ) == c);
                if i < w.len() {
                    assert(w[i] == v[i]);
                } else {
                    assert(record_cname(r)[0] == c);
                }
            }
        }
    }
}

} // verus!

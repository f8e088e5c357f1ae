//! Random probes that show whether a zone answers for any name.

use vstd::prelude::*;

use crate::dns::answers::{
    answers_views, law_merging_keeps_every_answer, merged_answers, united_cnames, united_ips,
    AnswersView, HostAnswers,
};
use crate::dns::decision::{opt_signature, SignatureView, WildcardSignature};
use crate::dns::zones::{
    sig_to_state, signature_state, unite_signatures, united_signature, ParentState, StateView,
};
use crate::ip::{add_ips, IpAddr};
use crate::lists::{add_all_unique, lemma_all_added, tally};
use crate::numbers::decimal_of_usize;
use crate::text::{has_only, CharClass};

verus! {

/// Calls `rand::Rng::random_range` on the thread's generator. Nothing is promised of the
/// number but that it is below the bound.
#[verifier::external_body]
fn random_below(n: usize) -> (r: usize)
    requires
        n > 0,
    ensures
        r < n,
{
    rand::Rng::random_range(&mut rand::rng(), 0..n)
}

/// A label of random lowercase letters and digits.
pub fn random_label(len: usize) -> (r: String)
    ensures
        r@.len() == len,
        has_only(r@, CharClass::LabelEdge),
{
    let mut out = String::new();
    let mut i: usize = 0;
    while i < len
        invariant
            i <= len,
            out@.len() == i,
            has_only(out@, CharClass::LabelEdge),
        decreases len - i,
    {
        let n: usize = random_below(36);
        out.push(label_char(n as u8));
        i += 1;
    }
    out
}

/// The character that a number below 36 picks: the letters, then the digits.
pub fn label_char(n: u8) -> (r: char)
    requires
        n < 36,
    ensures
        r as int == (if n < 26 {
            'a' as int + n
        } else {
            '0' as int + n - 26
        }),
        CharClass::LabelEdge.has(r),
{
    if n < 26 {
        (97u8 + n) as char
    } else {
        (48u8 + (n - 26)) as char
    }
}

/// A query: which resolver is asked for what name.
#[derive(Debug, Clone)]
pub struct Probe {
    pub resolver: usize,
    pub name: String,
}

/// Whether a name is a random label below a zone.
pub open spec fn is_probe_name(name: Seq<char>, zone: Seq<char>, len: nat) -> bool {
    &&& name.len() == len + 1 + zone.len()
    &&& has_only(name.take(len as int), CharClass::LabelEdge)
    &&& name.skip(len as int) == seq!['.'] + zone
}

/// A random name below a zone.
pub fn probe_name(zone: &str) -> (r: String)
    ensures
        is_probe_name(r@, zone@, 16),
{
    let label = random_label(16);
    let ghost l = label@;
    let mut name = label;
    name.push('.');
    name.append(zone);
    assert(name@.take(16) =~= l);
    assert(name@.skip(16) =~= seq!['.'] + zone@);
    name
}

/// Plans a round of probes, spread over resolvers in turn.
pub fn plan_probes(parent: &str, tests: usize, resolvers: &Vec<usize>) -> (r: Vec<Probe>)
    requires
        resolvers@.len() > 0,
    ensures
        r@.len() == tests,
        forall|i: int|
            0 <= i < tests ==> (#[trigger] r@[i]).resolver == resolvers@[i % resolvers@.len() as int]
                && is_probe_name(r@[i].name@, parent@, 16),
{
    let mut out: Vec<Probe> = Vec::new();
    let mut i: usize = 0;
    while i < tests
        invariant
            i <= tests,
            resolvers@.len() > 0,
            out@.len() == i,
            forall|j: int|
                0 <= j < i ==> (#[trigger] out@[j]).resolver == resolvers@[j
                    % resolvers@.len() as int] && is_probe_name(out@[j].name@, parent@, 16),
        decreases tests - i,
    {
        let resolver: usize = resolvers[i % resolvers.len()];
        out.push(Probe { resolver, name: probe_name(parent) });
        i += 1;
    }
    out
}

/// The label of a health-check query, such as `ac-nx-3-` and ten random characters.
pub fn random_check_label(round: usize, prefix: &str) -> (r: String)
    ensures
        r@.len() == 15 + prefix@.len() + crate::numbers::decimal(round as nat).len(),
        r@.take(r@.len() - 10) == "ac-"@ + prefix@ + seq!['-'] + crate::numbers::decimal(
            round as nat,
        ) + seq!['-'],
        has_only(r@.skip(r@.len() - 10), CharClass::LabelEdge),
{
    let mut out = String::new();
    out.append("ac-");
    out.append(prefix);
    out.push('-');
    out.append(decimal_of_usize(round).as_str());
    out.push('-');
    let ghost head = out@;
    let label = random_label(10);
    out.append(label.as_str());
    proof {
        reveal_strlit("ac-");
        assert(head =~= "ac-"@ + prefix@ + seq!['-'] + crate::numbers::decimal(round as nat)
            + seq!['-']);
        assert(out@.take(out@.len() - 10) =~= head);
        assert(out@.skip(out@.len() - 10) =~= label@);
    }
    out
}

// ---------------------------------------------------------------------------
// Rounds

/// The signature that a round of probes brought, if a probe resolved.
pub open spec fn round_signature(parent: Seq<char>, v: Seq<AnswersView>) -> Option<SignatureView> {
    if united_ips(v).len() == 0 && united_cnames(v).len() == 0 {
        None
    } else {
        Some(SignatureView { root: parent, ips: united_ips(v), cnames: united_cnames(v) })
    }
}

/// The number of probes of a round that brought an answer or NXDOMAIN.
pub open spec fn decisive(v: Seq<AnswersView>) -> nat {
    tally(v, |a: AnswersView| a.any_answer || a.all_nxdomain)
}

/// Sums up a round of probes: the signature, if a probe resolved, and the number of
/// decisive responses.
pub fn summarize_round(parent: &str, results: &Vec<HostAnswers>) -> (r: (
    Option<WildcardSignature>,
    usize,
))
    ensures
        opt_signature(r.0) == round_signature(parent@, answers_views(results@)),
        r.0 matches Some(s) ==> s@.wf(),
        r.1 == decisive(answers_views(results@)),
        r.1 <= results@.len(),
{
    let ghost all = answers_views(results@);
    let ghost p = |a: AnswersView| a.any_answer || a.all_nxdomain;
    let mut sig = WildcardSignature {
        root: parent.to_string(),
        ips: Vec::new(),
        cnames: Vec::new(),
    };
    let mut n: usize = 0;
    let mut i: usize = 0;
    assert(all.take(0) =~= Seq::empty());
    assert(sig@.cnames =~= Seq::empty());
    while i < results.len()
        invariant
            i <= results@.len(),
            all == answers_views(results@),
            p == (|a: AnswersView| a.any_answer || a.all_nxdomain),
            sig@ == (SignatureView {
                root: parent@,
                ips: united_ips(all.take(i as int)),
                cnames: united_cnames(all.take(i as int)),
            }),
            sig@.wf(),
            n == tally(all.take(i as int), p),
            n <= i,
        decreases results.len() - i,
    {
        let a = &results[i];
        assert(all.take(i + 1).drop_last() =~= all.take(i as int));
        assert(all.take(i + 1).last() == a@);
        proof {
            lemma_all_added(sig@.ips, a@.ips);
            lemma_all_added(sig@.cnames, a@.cnames);
        }
        add_ips(&mut sig.ips, &a.ips);
        add_all_unique(&mut sig.cnames, &a.cnames);
        if a.any_answer || a.all_nxdomain {
            n += 1;
        }
        i += 1;
    }
    assert(all.take(i as int) =~= all);
    if sig.ips.len() == 0 && sig.cnames.len() == 0 {
        (None, n)
    } else {
        (Some(sig), n)
    }
}

/// Whether a round settles a zone: at least half of its probes, and one at least, were
/// decisive.
pub open spec fn settles(tests: nat, decisive: nat) -> bool {
    decisive >= 1 && 2 * decisive >= tests
}

/// The state of a zone after one round, if that settles it.
pub open spec fn state_after_one(
    tests: nat,
    sig: Option<SignatureView>,
    decisive: nat,
) -> Option<StateView> {
    if settles(tests, decisive) {
        Some(signature_state(sig))
    } else {
        None
    }
}

/// The state of a zone after two rounds: dead without any decisive response, else what
/// the signatures of both rounds say together.
pub open spec fn state_after_two(
    sig1: Option<SignatureView>,
    decisive1: nat,
    sig2: Option<SignatureView>,
    decisive2: nat,
) -> StateView {
    if decisive1 + decisive2 == 0 {
        StateView::Dead
    } else {
        match (sig1, sig2) {
            (Some(a), Some(b)) => signature_state(united_signature(Some(a), b)),
            (Some(a), None) => signature_state(Some(a)),
            (None, s) => signature_state(s),
        }
    }
}

/// Judges a zone after one round. When fewer than half of the probes were decisive
/// another round is needed, and the signature is handed back.
pub fn judge_one_round(
    tests: usize,
    sig: Option<WildcardSignature>,
    decisive: usize,
) -> (r: Result<ParentState, Option<WildcardSignature>>)
    ensures
        match r {
            Ok(state) => state_after_one(tests as nat, opt_signature(sig), decisive as nat) == Some(
                state@,
            ),
            Err(back) => state_after_one(tests as nat, opt_signature(sig), decisive as nat) is None
                && back == sig,
        },
{
    if decisive >= 1 && decisive >= tests / 2 + tests % 2 {
        Ok(sig_to_state(sig))
    } else {
        Err(sig)
    }
}

/// Judges a zone after two rounds.
pub fn judge_two_rounds(
    sig1: Option<WildcardSignature>,
    decisive1: usize,
    sig2: Option<WildcardSignature>,
    decisive2: usize,
) -> (r: ParentState)
    ensures
        r@ == state_after_two(
            opt_signature(sig1),
            decisive1 as nat,
            opt_signature(sig2),
            decisive2 as nat,
        ),
{
    if decisive1 == 0 && decisive2 == 0 {
        return ParentState::Dead;
    }
    match (sig1, sig2) {
        (Some(a), Some(b)) => sig_to_state(unite_signatures(Some(a), &b)),
        (Some(a), None) => sig_to_state(Some(a)),
        (None, s) => sig_to_state(s),
    }
}

/// A zone is found dead only when no probe brought an answer or NXDOMAIN.
pub proof fn law_dead_means_no_decisive_probe(
    parent: Seq<char>,
    tests: nat,
    round1: Seq<AnswersView>,
    round2: Seq<AnswersView>,
)
    ensures
        state_after_one(tests, round_signature(parent, round1), decisive(round1))
            != Some(StateView::Dead),
        state_after_two(
            round_signature(parent, round1),
            decisive(round1),
            round_signature(parent, round2),
            decisive(round2),
        ) == StateView::Dead <==> decisive(round1) == 0 && decisive(round2) == 0,
{
}

/// Whether some probe of a round brought an address or a CNAME target.
pub open spec fn some_resolved(v: Seq<AnswersView>) -> bool {
    exists|i: int|
        0 <= i < v.len() && ((#[trigger] v[i]).ips.len() > 0 || v[i].cnames.len() > 0)
}

/// A round has a signature exactly if one of its probes resolved. The signature is of the
/// zone, and has exactly the addresses and CNAME targets that the probes brought.
pub proof fn law_signatures_hold_what_probes_brought(parent: Seq<char>, v: Seq<AnswersView>)
    ensures
        round_signature(parent, v) is Some <==> some_resolved(v),
        round_signature(parent, v) matches Some(s) ==> {
            &&& s.root == parent
            &&& forall|ip: IpAddr| #[trigger]
                s.ips.contains(ip) <==> exists|i: int|
                    0 <= i < v.len() && (#[trigger] v[i]).ips.contains(ip)
            &&& forall|c: Seq<char>| #[trigger]
                s.cnames.contains(c) <==> exists|i: int|
                    0 <= i < v.len() && (#[trigger] v[i]).cnames.contains(c)
        },
{
    law_merging_keeps_every_answer(v);
    let (ips, names) = (united_ips(v), united_cnames(v));
    assert(ips == merged_answers(v).ips && names == merged_answers(v).cnames);
    if some_resolved(v) {
        let i = choose|i: int|
            0 <= i < v.len() && ((#[trigger] v[i]).ips.len() > 0 || v[i].cnames.len() > 0);
        if v[i].ips.len() > 0 {
            assert(v[i].ips.contains(v[i].ips[0]));
            assert(ips.contains(v[i].ips[0]));
        } else {
            assert(v[i].cnames.contains(v[i].cnames[0]));
            assert(names.contains(v[i].cnames[0]));
        }
    }
    if ips.len() > 0 {
        assert(ips.contains(ips[0]));
        let i = choose|i: int| 0 <= i < v.len() && (#[trigger] v[i]).ips.contains(ips[0]);
        assert(v[i].ips.len() > 0);
    }
    if names.len() > 0 {
        assert(names.contains(names[0]));
        let i = choose|i: int| 0 <= i < v.len() && (#[trigger] v[i]).cnames.contains(names[0]);
        assert(v[i].cnames.len() > 0);
    }
}

/// A zone is found to be a wildcard exactly if a random name below it resolved, in a round
/// that settles it or in two rounds of which one was decisive; otherwise it is clean, or dead
/// if no probe was decisive. One round settles it if at least half of the probes, and one at
/// least, brought an answer or NXDOMAIN.
pub proof fn law_random_names_show_wildcards(
    parent: Seq<char>,
    tests: nat,
    round1: Seq<AnswersView>,
    round2: Seq<AnswersView>,
)
    ensures
        ({
            let d1 = tally(round1, |a: AnswersView| a.any_answer || a.all_nxdomain);
            let d2 = tally(round2, |a: AnswersView| a.any_answer || a.all_nxdomain);
            let one = state_after_one(tests, round_signature(parent, round1), decisive(round1));
            let two = state_after_two(
                round_signature(parent, round1),
                decisive(round1),
                round_signature(parent, round2),
                decisive(round2),
            );
            &&& one is Some <==> d1 >= 1 && d1 + d1 >= tests
            &&& one is Some ==> (one->0 is Wildcard <==> some_resolved(round1)) && (one->0 is Clean
                <==> !some_resolved(round1))
            &&& two is Dead <==> d1 + d2 == 0
            &&& d1 + d2 > 0 ==> (two is Wildcard <==> some_resolved(round1) || some_resolved(
                round2,
            )) && (two is Clean <==> !some_resolved(round1) && !some_resolved(round2))
            &&& two matches StateView::Wildcard(s) ==> s.root == parent && forall|ip: IpAddr|
                #[trigger]
                s.ips.contains(ip) <==> (exists|i: int|
                    0 <= i < round1.len() && (#[trigger] round1[i]).ips.contains(ip)) || (exists|
                    i: int,
                |
                    0 <= i < round2.len() && (#[trigger] round2[i]).ips.contains(ip))
            &&& two matches StateView::Wildcard(s) ==> forall|c: Seq<char>| #[trigger]
                s.cnames.contains(c) <==> (exists|i: int|
                    0 <= i < round1.len() && (#[trigger] round1[i]).cnames.contains(c)) || (exists|
                    i: int,
                |
                    0 <= i < round2.len() && (#[trigger] round2[i]).cnames.contains(c))
        }),
{
    law_signatures_hold_what_probes_brought(parent, round1);
    law_signatures_hold_what_probes_brought(parent, round2);
    let (s1, s2) = (round_signature(parent, round1), round_signature(parent, round2));
    if s1 is Some && s2 is Some {
        lemma_all_added(s1->0.ips, s2->0.ips);
        lemma_all_added(s1->0.cnames, s2->0.cnames);
    }
    lemma_unresolved(round1);
    lemma_unresolved(round2);
}

proof fn lemma_unresolved(v: Seq<AnswersView>)
    ensures
        !some_resolved(v) ==> forall|i: int, ip: IpAddr|
            0 <= i < v.len() ==> !(#[trigger] v[i].ips.contains(ip)),
        !some_resolved(v) ==> forall|i: int, c: Seq<char>|
            0 <= i < v.len() ==> !(#[trigger] v[i].cnames.contains(c)),
{
    if !some_resolved(v) {
        assert forall|i: int, ip: IpAddr| 0 <= i < v.len() implies !(
        #[trigger] v[i].ips.contains(ip)) by {
            assert(!(v[i].ips.len() > 0));
        }
        assert forall|i: int, c: Seq<char>| 0 <= i < v.len() implies !(
        #[trigger] v[i].cnames.contains(c)) by {
            assert(!(v[i].cnames.len() > 0));
        }
    }
}

} // verus!

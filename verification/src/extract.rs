//! Candidate extraction from dirty text, URL lines, JSON and certificate names.
//!
//! Extraction returns raw candidate tokens, each once, for normalization and
//! classification.

use vstd::prelude::*;
use vstd::slice::slice_subrange;
use vstd::utf8::encode_utf8;

use crate::lists::{all_added, lemma_all_added, lemma_push_contains, UniqueTexts};
use crate::text::{
    char_texts, chars_of, end_before, has_any, has_only, is_digit, is_letter, joined,
    lemma_end_before, lemma_one_piece, lemma_past_from, lemma_pieces_snoc, lemma_trimmed,
    lemma_unchanged_by_trim, lines, lines_of, past_from, pieces, same_str, split, starts_with,
    string_of, texts, trim, trim_end, trim_start, trimmed, without_leading, without_return,
    without_trailing, CharClass,
};

verus! {

/// A URL or a scheme-relative URL.
pub const URL_PATTERN: &'static str = r#"(?i)((?:https?://|//)[^\s<>'"]+)"#;

/// A bracketed IPv6 address with an optional port.
pub const BRACKET_IPV6_PATTERN: &'static str = r"(?:^|[^\w:])(\[[0-9a-fA-F:.]+\](?::\d{1,5})?)";

/// A bare IPv6 address.
pub const IPV6_PATTERN: &'static str = r"(?:^|[^\w:])((?:[0-9a-fA-F]{0,4}:){2,7}[0-9a-fA-F]{0,4})\b";

/// An IPv4 address with an optional port.
pub const IPV4_PATTERN: &'static str = r"(?:^|[^\w.])((?:\d{1,3}\.){3}\d{1,3}(?::\d{1,5})?)\b";

/// A domain name, possibly a wildcard, with an optional port.
pub const DOMAIN_PATTERN: &'static str =
    r"(?:^|[^@\w.-])((?:\*\.)?(?:[A-Za-z0-9\u{0080}-\u{FFFF}-]{1,63}\.)+[A-Za-z0-9\u{0080}-\u{FFFF}-]{2,63}\.?(?::\d{1,5})?)\b";

// ---------------------------------------------------------------------------
// Matches

/// A match: where it starts and ends, counted in bytes, and its text.
#[derive(Debug, Clone)]
pub struct Span {
    pub start: usize,
    pub end: usize,
    pub text: String,
}

impl View for Span {
    type V = (int, int, Seq<char>);

    open spec fn view(&self) -> (int, int, Seq<char>) {
        (self.start as int, self.end as int, self.text@)
    }
}

/// What a list of matches says.
pub open spec fn span_views(v: Seq<Span>) -> Seq<(int, int, Seq<char>)> {
    v.map_values(|s: Span| s@)
}

/// What a list of optional matches says.
pub open spec fn group_views(v: Seq<Option<Span>>) -> Seq<Option<(int, int, Seq<char>)>> {
    v.map_values(
        |o: Option<Span>|
            match o {
                Some(s) => Some(s@),
                None => None,
            },
    )
}

/// The items that are there.
pub open spec fn present(v: Seq<Option<(int, int, Seq<char>)>>) -> Seq<(int, int, Seq<char>)>
    decreases v.len(),
{
    if v.len() == 0 {
        Seq::empty()
    } else {
        match v.last() {
            Some(m) => present(v.drop_last()).push(m),
            None => present(v.drop_last()),
        }
    }
}

/// Whether matches stand one behind the other, each as long as its text.
pub open spec fn in_order(v: Seq<(int, int, Seq<char>)>) -> bool {
    &&& forall|i: int|
        0 <= i < v.len() ==> (#[trigger] v[i]).1 == v[i].0 + encode_utf8(v[i].2).len()
    &&& forall|i: int, j: int| 0 <= i < j < v.len() ==> (#[trigger] v[i]).1 <= (#[trigger] v[j]).0
}

/// Whether a text is a piece of another.
pub open spec fn piece_of(t: Seq<char>, s: Seq<char>) -> bool {
    exists|i: int, j: int| 0 <= i <= j <= s.len() && t == #[trigger] s.subrange(i, j)
}

/// Whether a match is the piece of a text that starts at its first byte.
pub open spec fn lies_in(m: (int, int, Seq<char>), text: Seq<char>) -> bool {
    exists|i: int|
        0 <= i && i + m.2.len() <= text.len() && m.2 == text.subrange(i, i + m.2.len()) && m.0
            == (#[trigger] encode_utf8(text.take(i))).len()
}

/// Whether every match is the piece of a text that starts at its first byte.
pub open spec fn all_lie_in(v: Seq<(int, int, Seq<char>)>, text: Seq<char>) -> bool {
    forall|i: int| 0 <= i < v.len() ==> lies_in(#[trigger] v[i], text)
}

/// What `Regex::find_iter` yields for a pattern and a text; nothing when the pattern
/// is no valid expression.
pub uninterp spec fn regex_matches(
    pattern: Seq<char>,
    text: Seq<char>,
) -> Option<Seq<(int, int, Seq<char>)>>;

/// What group 1 of each item of `Regex::captures_iter` matched, if it took part;
/// nothing when the pattern is no valid expression.
pub uninterp spec fn regex_groups(
    pattern: Seq<char>,
    text: Seq<char>,
) -> Option<Seq<Option<(int, int, Seq<char>)>>>;

/// Matches moved by a number of bytes.
pub open spec fn moved(v: Seq<(int, int, Seq<char>)>, n: int) -> Seq<(int, int, Seq<char>)> {
    v.map_values(|m: (int, int, Seq<char>)| (m.0 + n, m.1 + n, m.2))
}

/// The texts put together.
pub open spec fn put_together(v: Seq<Seq<char>>) -> Seq<char>
    decreases v.len(),
{
    if v.len() == 0 {
        Seq::empty()
    } else {
        v[0] + put_together(v.skip(1))
    }
}

/// The lists of matches in several texts put together, each moved by the bytes before its
/// text.
pub open spec fn lists_together(
    v: Seq<Seq<char>>,
    found: Seq<Seq<(int, int, Seq<char>)>>,
) -> Seq<(int, int, Seq<char>)>
    decreases v.len(),
{
    if v.len() == 0 {
        Seq::empty()
    } else {
        found[0] + moved(
            lists_together(v.skip(1), found.skip(1)),
            encode_utf8(v[0]).len() as int,
        )
    }
}

/// Whether texts follow one another line by line: every one but the last ends with a line
/// feed.
pub open spec fn lines_apart(v: Seq<Seq<char>>) -> bool {
    forall|i: int| 0 <= i < v.len() - 1 ==> (#[trigger] v[i]).len() > 0 && v[i].last() == '\n'
}

/// Whether a pattern is one of those for addresses and names.
pub open spec fn is_host_pattern(pattern: Seq<char>) -> bool {
    pattern == BRACKET_IPV6_PATTERN@ || pattern == IPV6_PATTERN@ || pattern == IPV4_PATTERN@
        || pattern == DOMAIN_PATTERN@
}

/// What the lists of matches say.
pub open spec fn span_lists(v: Seq<Vec<Span>>) -> Seq<Seq<(int, int, Seq<char>)>> {
    v.map_values(|l: Vec<Span>| span_views(l@))
}

/// What the lists of optional matches say of those that are there.
pub open spec fn group_lists(v: Seq<Vec<Option<Span>>>) -> Seq<Seq<(int, int, Seq<char>)>> {
    v.map_values(|l: Vec<Option<Span>>| present(group_views(l@)))
}

/// Calls `regex::Regex::new` once and `Regex::find_iter` on each text. The matches are
/// fixed by the pattern and the text. They do not overlap and come in the order of the
/// text, and each is the piece of the text between its first and its last byte. No
/// match of the URL pattern holds whitespace, and the pattern looks at nothing beside a
/// match, so in texts that follow one another line by line the matches are those of the
/// texts put together. Which matches there are is not spelled out here.
#[verifier::external_body]
fn find_all(pattern: &str, searched: &Vec<String>) -> (r: Option<Vec<Vec<Span>>>)
    ensures
        match r {
            Some(v) => v@.len() == searched@.len() && forall|i: int|
                0 <= i < v@.len() ==> regex_matches(pattern@, searched@[i]@) == Some(
                    span_views((#[trigger] v@[i])@),
                ) && in_order(span_views(v@[i]@)) && all_lie_in(
                    span_views(v@[i]@),
                    searched@[i]@,
                ),
            None => forall|t: Seq<char>| (#[trigger] regex_matches(pattern@, t)) is None,
        },
        r is Some && pattern@ == URL_PATTERN@ && lines_apart(texts(searched@)) ==> regex_matches(
            pattern@,
            put_together(texts(searched@)),
        ) == Some(lists_together(texts(searched@), span_lists(r->0@))),
{
    let re = regex::Regex::new(pattern).ok()?;
    let span = |m: regex::Match| Span {
        start: m.start(),
        end: m.end(),
        text: m.as_str().to_string(),
    };
    Some(searched.iter().map(|t| re.find_iter(t).map(span).collect()).collect())
}

/// Calls `regex::Regex::new` once and `Regex::captures_iter` on each text, and takes from
/// each item what group 1 matched, if it took part. The matches are fixed by the pattern
/// and the text. They do not overlap and come in the order of the text, and each is the
/// piece of the text between its first and its last byte. In the patterns for addresses and
/// names, group 1 takes part in every match and takes no line feed, before it stands the
/// beginning of the text or a character that may be a line feed, and behind it at most a
/// word boundary; so in texts that follow one another line by line it matches what it
/// matches in the texts put together. Which matches there are is not spelled out here.
#[verifier::external_body]
fn find_groups(pattern: &str, searched: &Vec<String>) -> (r: Option<Vec<Vec<Option<Span>>>>)
    ensures
        match r {
            Some(v) => v@.len() == searched@.len() && forall|i: int|
                0 <= i < v@.len() ==> regex_groups(pattern@, searched@[i]@) == Some(
                    group_views((#[trigger] v@[i])@),
                ) && in_order(present(group_views(v@[i]@))) && all_lie_in(
                    present(group_views(v@[i]@)),
                    searched@[i]@,
                ),
            None => forall|t: Seq<char>| (#[trigger] regex_groups(pattern@, t)) is None,
        },
        r is Some && is_host_pattern(pattern@) && lines_apart(texts(searched@)) ==> groups_or_none(
            regex_groups(pattern@, put_together(texts(searched@))),
        ) == lists_together(texts(searched@), group_lists(r->0@)),
{
    let re = regex::Regex::new(pattern).ok()?;
    let span = |m: regex::Match| Span {
        start: m.start(),
        end: m.end(),
        text: m.as_str().to_string(),
    };
    let group = |c: regex::Captures| c.get(1).map(span);
    Some(searched.iter().map(|t| re.captures_iter(t).map(group).collect()).collect())
}

// ---------------------------------------------------------------------------
// Tokens

/// A token without surrounding whitespace and punctuation.
pub open spec fn clean_token(s: Seq<char>) -> Seq<char> {
    trimmed(trimmed(s, CharClass::Whitespace), CharClass::TokenEdge)
}

/// `t` with a single dot where it ends with several.
pub open spec fn with_single_dot(t: Seq<char>) -> Seq<char> {
    if t.len() >= 2 && t[t.len() - 1] == '.' && t[t.len() - 2] == '.' {
        without_trailing(t, CharClass::Is('.')).push('.')
    } else {
        t
    }
}

/// A token without what cannot begin or end a candidate.
pub open spec fn without_boundary(token: Seq<char>) -> Seq<char> {
    with_single_dot(
        without_trailing(
            without_leading(clean_token(token), CharClass::NotCandidateStart),
            CharClass::NotCandidateEnd,
        ),
    )
}

/// The candidate that a match outside URLs stands for.
pub open spec fn candidate(text: Seq<char>) -> Seq<char> {
    without_boundary(clean_token(text))
}

/// The items of a list that are not empty.
pub open spec fn nonempty(v: Seq<Seq<char>>) -> Seq<Seq<char>>
    decreases v.len(),
{
    if v.len() == 0 {
        Seq::empty()
    } else if v.last().len() == 0 {
        nonempty(v.drop_last())
    } else {
        nonempty(v.drop_last()).push(v.last())
    }
}

/// Whether a range overlaps one of the occupied ranges.
pub open spec fn overlapping(
    start: int,
    end: int,
    occupied: Seq<(int, int, Seq<char>)>,
) -> bool {
    exists|i: int|
        0 <= i < occupied.len() && (#[trigger] occupied[i]).0 < end && occupied[i].1 > start
}

/// Whether a match is taken: it overlaps no occupied range, and a candidate is left
/// of it.
pub open spec fn taken(
    m: (int, int, Seq<char>),
    occupied: Seq<(int, int, Seq<char>)>,
) -> bool {
    &&& !overlapping(m.0, m.1, occupied)
    &&& clean_token(m.2).len() > 0
    &&& candidate(m.2).len() > 0
}

/// The matches that are taken.
pub open spec fn taken_of(
    v: Seq<(int, int, Seq<char>)>,
    occupied: Seq<(int, int, Seq<char>)>,
) -> Seq<(int, int, Seq<char>)>
    decreases v.len(),
{
    if v.len() == 0 {
        Seq::empty()
    } else if taken(v.last(), occupied) {
        taken_of(v.drop_last(), occupied).push(v.last())
    } else {
        taken_of(v.drop_last(), occupied)
    }
}

/// The ranges that are occupied after the matches of each pass were taken in turn.
pub open spec fn occupied_after(
    urls: Seq<(int, int, Seq<char>)>,
    passes: Seq<Seq<(int, int, Seq<char>)>>,
) -> Seq<(int, int, Seq<char>)>
    decreases passes.len(),
{
    if passes.len() == 0 {
        urls
    } else {
        let occupied = occupied_after(urls, passes.drop_last());
        occupied + taken_of(passes.last(), occupied)
    }
}

/// The candidates of a text, given the matches of the URL pattern and of each other
/// pattern in turn. URLs come first; a match that overlaps an earlier one is left out.
pub open spec fn candidates(
    urls: Seq<(int, int, Seq<char>)>,
    passes: Seq<Seq<(int, int, Seq<char>)>>,
) -> Seq<Seq<char>>
    decreases passes.len(),
{
    if passes.len() == 0 {
        all_added(
            Seq::empty(),
            nonempty(urls.map_values(|m: (int, int, Seq<char>)| clean_token(m.2))),
        )
    } else {
        all_added(
            candidates(urls, passes.drop_last()),
            taken_of(passes.last(), occupied_after(urls, passes.drop_last())).map_values(
                |m: (int, int, Seq<char>)| candidate(m.2),
            ),
        )
    }
}

/// The matches of a group, or none.
pub open spec fn groups_or_none(
    m: Option<Seq<Option<(int, int, Seq<char>)>>>,
) -> Seq<(int, int, Seq<char>)> {
    match m {
        Some(v) => present(v),
        None => Seq::empty(),
    }
}

/// The matches, or none.
pub open spec fn or_none(m: Option<Seq<(int, int, Seq<char>)>>) -> Seq<(int, int, Seq<char>)> {
    match m {
        Some(v) => v,
        None => Seq::empty(),
    }
}

/// The matches of the URL pattern in a text.
pub open spec fn urls_in(text: Seq<char>) -> Seq<(int, int, Seq<char>)> {
    or_none(regex_matches(URL_PATTERN@, text))
}

/// The matches of each other pattern in a text, in turn.
pub open spec fn hosts_in(text: Seq<char>) -> Seq<Seq<(int, int, Seq<char>)>> {
    seq![
        groups_or_none(regex_groups(BRACKET_IPV6_PATTERN@, text)),
        groups_or_none(regex_groups(IPV6_PATTERN@, text)),
        groups_or_none(regex_groups(IPV4_PATTERN@, text)),
        groups_or_none(regex_groups(DOMAIN_PATTERN@, text)),
    ]
}

/// The candidates of a text.
pub open spec fn text_candidates(text: Seq<char>) -> Seq<Seq<char>> {
    candidates(urls_in(text), hosts_in(text))
}

/// Whether the matches of every pattern in a text are pieces of it, at their places and in
/// order.
pub open spec fn matches_lie_in(text: Seq<char>) -> bool {
    &&& all_lie_in(urls_in(text), text)
    &&& in_order(urls_in(text))
    &&& forall|k: int|
        0 <= k < 4 ==> all_lie_in(#[trigger] hosts_in(text)[k], text) && in_order(hosts_in(text)[k])
}

fn trim_token(s: &str) -> (r: String)
    ensures
        r@ == clean_token(s@),
{
    let chars = chars_of(s);
    string_of(trim(trim(chars.as_slice(), CharClass::Whitespace), CharClass::TokenEdge))
}

fn strip_regex_boundary(token: &str) -> (r: String)
    ensures
        r@ == without_boundary(token@),
{
    let clean = chars_of(trim_token(token).as_str());
    let head = trim_start(clean.as_slice(), CharClass::NotCandidateStart);
    let t = trim_end(head, CharClass::NotCandidateEnd);
    let n: usize = t.len();
    if n >= 2 && t[n - 1] == '.' && t[n - 2] == '.' {
        let mut r = string_of(trim_end(t, CharClass::Is('.')));
        r.push('.');
        r
    } else {
        string_of(t)
    }
}

/// Whether every text of a list is a piece of another.
pub open spec fn all_pieces_of(v: Seq<Seq<char>>, s: Seq<char>) -> bool {
    forall|i: int| 0 <= i < v.len() ==> piece_of(#[trigger] v[i], s)
}

proof fn lemma_piece_of_piece(t: Seq<char>, u: Seq<char>, s: Seq<char>)
    requires
        piece_of(t, u),
        piece_of(u, s),
    ensures
        piece_of(t, s),
{
    let (i, j) = choose|i: int, j: int| 0 <= i <= j <= u.len() && t == #[trigger] u.subrange(i, j);
    let (m, n) = choose|m: int, n: int| 0 <= m <= n <= s.len() && u == #[trigger] s.subrange(m, n);
    assert(t =~= s.subrange(m + i, m + j));
}

proof fn lemma_clean_token_is_piece(s: Seq<char>)
    ensures
        piece_of(clean_token(s), s),
{
    let t = trimmed(s, CharClass::Whitespace);
    lemma_trimmed(s, CharClass::Whitespace);
    lemma_trimmed(t, CharClass::TokenEdge);
    lemma_past_from(s, CharClass::Whitespace, 0);
    lemma_past_from(t, CharClass::TokenEdge, 0);
    let i = past_from(s, CharClass::Whitespace, 0);
    let j = past_from(t, CharClass::TokenEdge, 0);
    assert(t == s.subrange(i, i + t.len()));
    assert(clean_token(s) == t.subrange(j, j + clean_token(s).len()));
    lemma_piece_of_piece(clean_token(s), t, s);
}

proof fn lemma_candidate_is_piece(s: Seq<char>)
    ensures
        piece_of(candidate(s), s),
{
    let a = clean_token(s);
    let b = clean_token(a);
    let c = without_leading(b, CharClass::NotCandidateStart);
    let d = without_trailing(c, CharClass::NotCandidateEnd);
    let e = with_single_dot(d);
    let dot = CharClass::Is('.');
    lemma_clean_token_is_piece(s);
    lemma_clean_token_is_piece(a);
    lemma_past_from(b, CharClass::NotCandidateStart, 0);
    lemma_end_before(c, CharClass::NotCandidateEnd, c.len() as int);
    lemma_end_before(d, dot, d.len() as int);
    assert(c =~= b.subrange(past_from(b, CharClass::NotCandidateStart, 0), b.len() as int));
    assert(d =~= c.subrange(0, d.len() as int));
    if e != d {
        let n = end_before(d, dot, d.len() as int);
        assert(dot.has(d[d.len() - 1]) && dot.has(d[d.len() - 2]));
        assert(e =~= d.subrange(0, n + 1));
    } else {
        assert(e =~= d.subrange(0, d.len() as int));
    }
    lemma_piece_of_piece(e, d, c);
    lemma_piece_of_piece(e, c, b);
    lemma_piece_of_piece(e, b, a);
    lemma_piece_of_piece(e, a, s);
}

proof fn lemma_nonempty(v: Seq<Seq<char>>)
    ensures
        forall|x: Seq<char>| #[trigger] nonempty(v).contains(x) <==> v.contains(x) && x.len() > 0,
    decreases v.len(),
{
    if v.len() > 0 {
        let w = v.drop_last();
        lemma_nonempty(w);
        assert(v =~= w.push(v.last()));
        assert forall|x: Seq<char>| #[trigger] nonempty(v).contains(x) <==> v.contains(x)
            && x.len() > 0 by {
            lemma_push_contains(w, v.last(), x);
            lemma_push_contains(nonempty(w), v.last(), x);
        }
    }
}

proof fn lemma_candidates_are_pieces(
    urls: Seq<(int, int, Seq<char>)>,
    passes: Seq<Seq<(int, int, Seq<char>)>>,
    text: Seq<char>,
)
    requires
        all_lie_in(urls, text),
        forall|i: int| 0 <= i < passes.len() ==> all_lie_in(#[trigger] passes[i], text),
    ensures
        all_pieces_of(candidates(urls, passes), text),
    decreases passes.len(),
{
    let found = candidates(urls, passes);
    if passes.len() == 0 {
        let f = |m: (int, int, Seq<char>)| clean_token(m.2);
        let tokens = urls.map_values(f);
        lemma_all_added(Seq::empty(), nonempty(tokens));
        lemma_nonempty(tokens);
        assert forall|k: int| 0 <= k < found.len() implies piece_of(#[trigger] found[k], text) by {
            assert(found.contains(found[k]));
            assert(nonempty(tokens).contains(found[k]));
            let i = choose|i: int| 0 <= i < tokens.len() && tokens[i] == found[k];
            assert(lies_in(urls[i], text));
            lemma_clean_token_is_piece(urls[i].2);
            lemma_piece_of_piece(found[k], urls[i].2, text);
        }
    } else {
        let rest = passes.drop_last();
        let occupied = occupied_after(urls, rest);
        let t = taken_of(passes.last(), occupied);
        let f = |m: (int, int, Seq<char>)| candidate(m.2);
        let tokens = t.map_values(f);
        assert forall|i: int| 0 <= i < rest.len() implies all_lie_in(#[trigger] rest[i], text) by {
            assert(rest[i] == passes[i]);
        }
        lemma_candidates_are_pieces(urls, rest, text);
        lemma_all_added(candidates(urls, rest), tokens);
        lemma_taken_of(passes.last(), occupied);
        assert(passes.last() == passes[passes.len() - 1]);
        assert forall|k: int| 0 <= k < found.len() implies piece_of(#[trigger] found[k], text) by {
            assert(found.contains(found[k]));
            if candidates(urls, rest).contains(found[k]) {
                let i = choose|i: int|
                    0 <= i < candidates(urls, rest).len() && candidates(urls, rest)[i] == found[k];
                assert(piece_of(candidates(urls, rest)[i], text));
            } else {
                let i = choose|i: int| 0 <= i < tokens.len() && tokens[i] == found[k];
                assert(passes.last().contains(t[i]));
                let j = choose|j: int| 0 <= j < passes.last().len() && passes.last()[j] == t[i];
                assert(lies_in(passes.last()[j], text));
                lemma_candidate_is_piece(t[i].2);
                lemma_piece_of_piece(found[k], t[i].2, text);
            }
        }
    }
}

// ---------------------------------------------------------------------------
// Occupied ranges

/// Whether ranges are sorted and disjoint.
spec fn sorted_disjoint(v: Seq<(usize, usize)>) -> bool {
    &&& forall|i: int| 0 <= i < v.len() ==> (#[trigger] v[i]).0 <= v[i].1
    &&& forall|i: int, j: int| 0 <= i < j < v.len() ==> (#[trigger] v[i]).1 <= (#[trigger] v[j]).0
}

/// Whether some match has the given bounds.
spec fn match_with(m: Seq<(int, int, Seq<char>)>, start: int, end: int) -> bool {
    exists|j: int| 0 <= j < m.len() && (#[trigger] m[j]).0 == start && m[j].1 == end
}

/// Whether some range has the given bounds.
spec fn range_with(v: Seq<(usize, usize)>, start: int, end: int) -> bool {
    exists|i: int| 0 <= i < v.len() && (#[trigger] v[i]).0 == start && v[i].1 == end
}

/// Whether ranges and matches have the same bounds, in whatever order.
spec fn same_ranges(v: Seq<(usize, usize)>, m: Seq<(int, int, Seq<char>)>) -> bool {
    &&& forall|i: int|
        0 <= i < v.len() ==> match_with(m, (#[trigger] v[i]).0 as int, v[i].1 as int)
    &&& forall|j: int| 0 <= j < m.len() ==> range_with(v, (#[trigger] m[j]).0, m[j].1)
}

spec fn range_overlaps(start: int, end: int, v: Seq<(usize, usize)>) -> bool {
    exists|i: int| 0 <= i < v.len() && (#[trigger] v[i]).0 < end && v[i].1 > start
}

/// Tests for overlap with sorted, disjoint ranges: only the last range that starts
/// before `end` can overlap.
fn overlaps(start: usize, end: usize, occupied: &Vec<(usize, usize)>) -> (r: bool)
    requires
        sorted_disjoint(occupied@),
    ensures
        r == range_overlaps(start as int, end as int, occupied@),
{
    let mut lo: usize = 0;
    let mut hi: usize = occupied.len();
    while lo < hi
        invariant
            lo <= hi <= occupied@.len(),
            sorted_disjoint(occupied@),
            forall|i: int| 0 <= i < lo ==> (#[trigger] occupied@[i]).0 < end,
            forall|i: int| hi <= i < occupied@.len() ==> (#[trigger] occupied@[i]).0 >= end,
        decreases hi - lo,
    {
        let mid: usize = lo + (hi - lo) / 2;
        if occupied[mid].0 < end {
            assert forall|i: int| 0 <= i < mid + 1 implies (#[trigger] occupied@[i]).0 < end by {
                if i < mid {
                    assert(occupied@[i].1 <= occupied@[mid as int].0);
                }
            }
            lo = mid + 1;
        } else {
            assert forall|i: int| mid <= i < occupied@.len() implies (#[trigger] occupied@[i]).0
                >= end by {
                if mid < i {
                    assert(occupied@[mid as int].1 <= occupied@[i].0);
                }
            }
            hi = mid;
        }
    }
    let r = lo > 0 && occupied[lo - 1].1 > start;
    proof {
        if r {
            assert(occupied@[lo - 1].0 < end);
        }
        if range_overlaps(start as int, end as int, occupied@) {
            let i = choose|i: int|
                0 <= i < occupied@.len() && (#[trigger] occupied@[i]).0 < end && occupied@[i].1
                    > start;
            assert(i < lo);
            if i < lo - 1 {
                assert(occupied@[i].1 <= occupied@[lo - 1].0);
            }
        }
    }
    r
}

/// Whether no range of one list overlaps a range of the other, and those of the
/// second are not empty.
spec fn apart(a: Seq<(usize, usize)>, b: Seq<(usize, usize)>) -> bool {
    &&& forall|j: int| 0 <= j < b.len() ==> (#[trigger] b[j]).0 < b[j].1
    &&& forall|i: int, j: int|
        0 <= i < a.len() && 0 <= j < b.len() ==> (#[trigger] a[i]).1 <= (#[trigger] b[j]).0
            || b[j].1 <= a[i].0
}

/// Merges two lists of sorted, disjoint ranges that are apart from each other.
fn merge_sorted_disjoint(a: Vec<(usize, usize)>, b: Vec<(usize, usize)>) -> (r: Vec<
    (usize, usize),
>)
    requires
        sorted_disjoint(a@),
        sorted_disjoint(b@),
        apart(a@, b@),
    ensures
        sorted_disjoint(r@),
        forall|p: (usize, usize)| #[trigger] r@.contains(p) <==> a@.contains(p) || b@.contains(p),
{
    let mut out: Vec<(usize, usize)> = Vec::new();
    let mut i: usize = 0;
    let mut j: usize = 0;
    while i < a.len() || j < b.len()
        invariant
            i <= a@.len(),
            j <= b@.len(),
            sorted_disjoint(a@),
            sorted_disjoint(b@),
            apart(a@, b@),
            sorted_disjoint(out@),
            forall|n: int, m: int|
                0 <= n < out@.len() && i <= m < a@.len() ==> (#[trigger] out@[n]).1 <= (
                #[trigger] a@[m]).0,
            forall|n: int, m: int|
                0 <= n < out@.len() && j <= m < b@.len() ==> (#[trigger] out@[n]).1 <= (
                #[trigger] b@[m]).0,
            forall|n: int|
                0 <= n < out@.len() ==> a@.contains(#[trigger] out@[n]) || b@.contains(out@[n]),
            forall|n: int| 0 <= n < i ==> out@.contains(#[trigger] a@[n]),
            forall|n: int| 0 <= n < j ==> out@.contains(#[trigger] b@[n]),
        decreases a.len() - i + b.len() - j,
    {
        let ghost before = out@;
        let from_a = j >= b.len() || (i < a.len() && a[i].0 <= b[j].0);
        if from_a {
            let p = a[i];
            proof {
                assert(a@[i as int] == p);
                assert forall|m: int| j <= m < b@.len() implies p.1 <= (#[trigger] b@[m]).0 by {
                    assert(p.0 <= b@[j as int].0);
                    assert(a@[i as int].1 <= b@[j as int].0 || b@[j as int].1 <= a@[i as int].0);
                    if j < m {
                        assert(b@[j as int].1 <= b@[m].0);
                    }
                }
            }
            out.push(p);
            i += 1;
        } else {
            let p = b[j];
            proof {
                assert(b@[j as int] == p);
                assert forall|m: int| i <= m < a@.len() implies p.1 <= (#[trigger] a@[m]).0 by {
                    assert(p.0 < a@[i as int].0);
                    assert(a@[i as int].1 <= b@[j as int].0 || b@[j as int].1 <= a@[i as int].0);
                    if i < m {
                        assert(a@[i as int].1 <= a@[m].0);
                    }
                }
            }
            out.push(p);
            j += 1;
        }
        proof {
            assert(out@.take(before.len() as int) =~= before);
            assert(out@[before.len() as int] == out@.last());
            assert forall|p: (usize, usize)| before.contains(p) implies out@.contains(p) by {
                let n = choose|n: int| 0 <= n < before.len() && before[n] == p;
                assert(out@[n] == p);
            }
        }
    }
    assert forall|p: (usize, usize)| #[trigger] out@.contains(p) <==> a@.contains(p) || b@.contains(
        p,
    ) by {
        if a@.contains(p) {
            let n = choose|n: int| 0 <= n < a@.len() && a@[n] == p;
            assert(out@.contains(a@[n]));
        }
        if b@.contains(p) {
            let n = choose|n: int| 0 <= n < b@.len() && b@[n] == p;
            assert(out@.contains(b@[n]));
        }
        if out@.contains(p) {
            let n = choose|n: int| 0 <= n < out@.len() && out@[n] == p;
            assert(a@.contains(out@[n]) || b@.contains(out@[n]));
        }
    }
    out
}

// ---------------------------------------------------------------------------
// Text

fn first_pass(urls: &Vec<Span>) -> (r: (UniqueTexts, Vec<(usize, usize)>))
    requires
        in_order(span_views(urls@)),
    ensures
        r.0.wf(),
        r.0@ == candidates(span_views(urls@), Seq::empty()),
        sorted_disjoint(r.1@),
        same_ranges(r.1@, span_views(urls@)),
{
    let ghost m = span_views(urls@);
    let ghost tokens = m.map_values(|m: (int, int, Seq<char>)| clean_token(m.2));
    let mut out = UniqueTexts::new();
    let mut ranges: Vec<(usize, usize)> = Vec::new();
    let mut i: usize = 0;
    while i < urls.len()
        invariant
            i <= urls@.len(),
            m == span_views(urls@),
            in_order(m),
            tokens == m.map_values(|m: (int, int, Seq<char>)| clean_token(m.2)),
            out.wf(),
            out@ == all_added(Seq::empty(), nonempty(tokens.take(i as int))),
            ranges@.len() == i,
            forall|n: int|
                0 <= n < i ==> (#[trigger] ranges@[n]).0 == m[n].0 && ranges@[n].1 == m[n].1,
        decreases urls.len() - i,
    {
        assert(tokens.take(i + 1).drop_last() =~= tokens.take(i as int));
        assert(tokens.take(i + 1).last() == clean_token(urls@[i as int].text@));
        let token = trim_token(urls[i].text.as_str());
        let ghost kept = nonempty(tokens.take(i as int));
        if !token.as_str().is_empty() {
            out.add(token);
            assert(kept.push(token@).drop_last() =~= kept);
        }
        ranges.push((urls[i].start, urls[i].end));
        assert(m[i as int] == urls@[i as int]@);
        i += 1;
    }
    assert(tokens.take(i as int) =~= tokens);
    assert(sorted_disjoint(ranges@)) by {
        assert forall|a: int, b: int| 0 <= a < b < ranges@.len() implies (#[trigger] ranges@[a]).1
            <= (#[trigger] ranges@[b]).0 by {
            assert(m[a].1 <= m[b].0);
        }
    }
    assert(same_ranges(ranges@, m)) by {
        assert forall|n: int| 0 <= n < ranges@.len() implies match_with(
            m,
            (#[trigger] ranges@[n]).0 as int,
            ranges@[n].1 as int,
        ) by {
            assert(m[n].0 == ranges@[n].0);
        }
        assert forall|n: int| 0 <= n < m.len() implies range_with(
            ranges@,
            (#[trigger] m[n]).0,
            m[n].1,
        ) by {
            assert(ranges@[n].0 == m[n].0);
        }
    }
    (out, ranges)
}

proof fn lemma_same_overlap(
    start: int,
    end: int,
    v: Seq<(usize, usize)>,
    m: Seq<(int, int, Seq<char>)>,
)
    requires
        same_ranges(v, m),
    ensures
        range_overlaps(start, end, v) == overlapping(start, end, m),
{
    if range_overlaps(start, end, v) {
        let i = choose|i: int| 0 <= i < v.len() && (#[trigger] v[i]).0 < end && v[i].1 > start;
        assert(match_with(m, v[i].0 as int, v[i].1 as int));
        let j = choose|j: int| 0 <= j < m.len() && (#[trigger] m[j]).0 == v[i].0 && m[j].1 == v[i].1;
        assert(m[j].0 < end);
    }
    if overlapping(start, end, m) {
        let j = choose|j: int| 0 <= j < m.len() && (#[trigger] m[j]).0 < end && m[j].1 > start;
        assert(range_with(v, m[j].0, m[j].1));
        let i = choose|i: int| 0 <= i < v.len() && (#[trigger] v[i]).0 == m[j].0 && v[i].1 == m[j].1;
        assert(v[i].0 < end);
    }
}

proof fn lemma_encoded_len(s: Seq<char>)
    ensures
        s.len() > 0 ==> encode_utf8(s).len() > 0,
{
    if s.len() > 0 {
        let n = vstd::utf8::encode_scalar(s[0] as u32);
        assert(n.len() > 0);
    }
}

proof fn lemma_clean_of_empty(s: Seq<char>)
    requires
        s.len() == 0,
    ensures
        clean_token(s).len() == 0,
{
    crate::text::lemma_trimmed(s, CharClass::Whitespace);
    crate::text::lemma_trimmed(trimmed(s, CharClass::Whitespace), CharClass::TokenEdge);
}

/// Takes the matches of one more pattern.
fn next_pass(
    out: &mut UniqueTexts,
    occupied: Vec<(usize, usize)>,
    groups: &Vec<Option<Span>>,
    Ghost(before): Ghost<Seq<(int, int, Seq<char>)>>,
) -> (r: Vec<(usize, usize)>)
    requires
        old(out).wf(),
        sorted_disjoint(occupied@),
        same_ranges(occupied@, before),
        in_order(present(group_views(groups@))),
    ensures
        final(out).wf(),
        final(out)@ == all_added(
            old(out)@,
            taken_of(present(group_views(groups@)), before).map_values(
                |m: (int, int, Seq<char>)| candidate(m.2),
            ),
        ),
        sorted_disjoint(r@),
        same_ranges(r@, before + taken_of(present(group_views(groups@)), before)),
{
    let ghost all = group_views(groups@);
    let ghost f = |m: (int, int, Seq<char>)| candidate(m.2);
    let mut additions: Vec<(usize, usize)> = Vec::new();
    let mut i: usize = 0;
    proof {
        assert(present(all.take(0)) =~= Seq::empty());
        assert(taken_of(present(all.take(0)), before).map_values(f) =~= Seq::empty());
    }
    while i < groups.len()
        invariant
            i <= groups@.len(),
            all == group_views(groups@),
            f == (|m: (int, int, Seq<char>)| candidate(m.2)),
            out.wf(),
            sorted_disjoint(occupied@),
            same_ranges(occupied@, before),
            in_order(present(all)),
            out@ == all_added(
                old(out)@,
                taken_of(present(all.take(i as int)), before).map_values(f),
            ),
            additions@.len() == taken_of(present(all.take(i as int)), before).len(),
            forall|n: int|
                0 <= n < additions@.len() ==> {
                    let t = taken_of(present(all.take(i as int)), before);
                    &&& (#[trigger] additions@[n]).0 == t[n].0
                    &&& additions@[n].1 == t[n].1
                },
        decreases groups.len() - i,
    {
        let ghost p = present(all.take(i as int));
        let ghost t = taken_of(p, before);
        assert(all.take(i + 1).drop_last() =~= all.take(i as int));
        assert(all.take(i + 1).last() == all[i as int]);
        if let Some(span) = &groups[i] {
            let ghost m = span@;
            assert(all[i as int] == Some(m));
            assert(p.push(m).drop_last() =~= p);
            proof {
                lemma_same_overlap(m.0, m.1, occupied@, before);
            }
            if !overlaps(span.start, span.end, &occupied) {
                let clean = trim_token(span.text.as_str());
                if !clean.as_str().is_empty() {
                    let token = strip_regex_boundary(clean.as_str());
                    if !token.as_str().is_empty() {
                        proof {
                            assert(t.push(m).map_values(f) =~= t.map_values(f).push(candidate(m.2)));
                            assert(t.map_values(f).push(candidate(m.2)).drop_last() =~= t.map_values(
                                f,
                            ));
                        }
                        out.add(token);
                        additions.push((span.start, span.end));
                    }
                }
            }
        }
        i += 1;
    }
    assert(all.take(i as int) =~= all);
    let ghost t = taken_of(present(all), before);
    let ghost extra = additions@;
    proof {
        lemma_taken_of(present(all), before);
        lemma_taken_in_order(present(all), before);
        assert(forall|n: int|
            0 <= n < extra.len() ==> (#[trigger] extra[n]).0 == t[n].0 && extra[n].1 == t[n].1);
        assert(sorted_disjoint(extra)) by {
            assert forall|a: int, b: int| 0 <= a < b < extra.len() implies (#[trigger] extra[a]).1
                <= (#[trigger] extra[b]).0 by {
                assert(t[a].1 <= t[b].0);
            }
            assert forall|a: int| 0 <= a < extra.len() implies (#[trigger] extra[a]).0
                <= extra[a].1 by {
                assert(t[a].1 == t[a].0 + encode_utf8(t[a].2).len());
            }
        }
        assert forall|n: int| 0 <= n < extra.len() implies (#[trigger] extra[n]).0
            < extra[n].1 by {
            assert(taken(t[n], before));
            lemma_encoded_len(t[n].2);
            if t[n].2.len() == 0 {
                lemma_clean_of_empty(t[n].2);
            }
            assert(t[n].1 == t[n].0 + encode_utf8(t[n].2).len());
        }
        assert forall|a: int, b: int| 0 <= a < occupied@.len() && 0 <= b < extra.len() implies (
        #[trigger] occupied@[a]).1 <= (#[trigger] extra[b]).0 || extra[b].1 <= occupied@[a].0 by {
            assert(taken(t[b], before));
            lemma_same_overlap(t[b].0, t[b].1, occupied@, before);
            assert(!(occupied@[a].0 < t[b].1 && occupied@[a].1 > t[b].0));
        }
    }
    let ghost old_ranges = occupied@;
    let r = merge_sorted_disjoint(occupied, additions);
    proof {
        lemma_merged_ranges(old_ranges, extra, r@, before, t);
    }
    r
}

proof fn lemma_merged_ranges(
    a: Seq<(usize, usize)>,
    b: Seq<(usize, usize)>,
    r: Seq<(usize, usize)>,
    before: Seq<(int, int, Seq<char>)>,
    t: Seq<(int, int, Seq<char>)>,
)
    requires
        same_ranges(a, before),
        b.len() == t.len(),
        forall|n: int| 0 <= n < b.len() ==> (#[trigger] b[n]).0 == t[n].0 && b[n].1 == t[n].1,
        forall|p: (usize, usize)| #[trigger] r.contains(p) <==> a.contains(p) || b.contains(p),
    ensures
        same_ranges(r, before + t),
{
    let m = before + t;
    assert forall|i: int| 0 <= i < r.len() implies match_with(
        m,
        (#[trigger] r[i]).0 as int,
        r[i].1 as int,
    ) by {
        assert(r.contains(r[i]));
        if a.contains(r[i]) {
            let k = choose|k: int| 0 <= k < a.len() && a[k] == r[i];
            assert(match_with(before, a[k].0 as int, a[k].1 as int));
            let j = choose|j: int|
                0 <= j < before.len() && (#[trigger] before[j]).0 == a[k].0 && before[j].1
                    == a[k].1;
            assert(m[j] == before[j]);
        } else {
            let k = choose|k: int| 0 <= k < b.len() && b[k] == r[i];
            assert(m[before.len() + k] == t[k]);
        }
    }
    assert forall|j: int| 0 <= j < m.len() implies range_with(r, (#[trigger] m[j]).0, m[j].1) by {
        if j < before.len() {
            assert(m[j] == before[j]);
            assert(range_with(a, before[j].0, before[j].1));
            let k = choose|k: int|
                0 <= k < a.len() && (#[trigger] a[k]).0 == before[j].0 && a[k].1 == before[j].1;
            assert(a.contains(a[k]));
            assert(r.contains(a[k]));
            let i = choose|i: int| 0 <= i < r.len() && r[i] == a[k];
            assert(r[i].0 == m[j].0);
        } else {
            let k = j - before.len();
            assert(m[j] == t[k]);
            assert(b.contains(b[k]));
            assert(r.contains(b[k]));
            let i = choose|i: int| 0 <= i < r.len() && r[i] == b[k];
            assert(r[i].0 == m[j].0);
        }
    }
}

proof fn lemma_taken_of(v: Seq<(int, int, Seq<char>)>, occupied: Seq<(int, int, Seq<char>)>)
    ensures
        forall|i: int|
            0 <= i < taken_of(v, occupied).len() ==> taken(
                #[trigger] taken_of(v, occupied)[i],
                occupied,
            ) && v.contains(taken_of(v, occupied)[i]),
    decreases v.len(),
{
    if v.len() > 0 {
        lemma_taken_of(v.drop_last(), occupied);
        let u = taken_of(v.drop_last(), occupied);
        let t = taken_of(v, occupied);
        assert forall|i: int| 0 <= i < t.len() implies taken(#[trigger] t[i], occupied)
            && v.contains(t[i]) by {
            if i < u.len() {
                assert(t[i] == u[i]);
                let n = choose|n: int| 0 <= n < v.drop_last().len() && v.drop_last()[n] == u[i];
                assert(v[n] == t[i]);
            } else {
                assert(v[v.len() - 1] == t[i]);
            }
        }
    }
}

proof fn lemma_taken_in_order(v: Seq<(int, int, Seq<char>)>, occupied: Seq<(int, int, Seq<char>)>)
    requires
        in_order(v),
    ensures
        in_order(taken_of(v, occupied)),
    decreases v.len(),
{
    if v.len() > 0 {
        let w = v.drop_last();
        assert(in_order(w)) by {
            assert forall|i: int| 0 <= i < w.len() implies (#[trigger] w[i]).1 == w[i].0
                + encode_utf8(w[i].2).len() by {
                assert(v[i].1 == v[i].0 + encode_utf8(v[i].2).len());
            }
            assert forall|i: int, j: int| 0 <= i < j < w.len() implies (#[trigger] w[i]).1 <= (
            #[trigger] w[j]).0 by {
                assert(v[i].1 <= v[j].0);
            }
        }
        lemma_taken_in_order(w, occupied);
        lemma_taken_of(w, occupied);
        let u = taken_of(w, occupied);
        let t = taken_of(v, occupied);
        if taken(v.last(), occupied) {
            assert(v[v.len() - 1].1 == v[v.len() - 1].0 + encode_utf8(v[v.len() - 1].2).len());
            assert forall|i: int, j: int| 0 <= i < j < t.len() implies (#[trigger] t[i]).1 <= (
            #[trigger] t[j]).0 by {
                assert(t[i] == u[i]);
                if j < u.len() {
                    assert(t[j] == u[j]);
                } else {
                    assert(w.contains(u[i]));
                    let n = choose|n: int| 0 <= n < w.len() && w[n] == u[i];
                    assert(v[n].1 <= v[v.len() - 1].0);
                }
            }
            assert forall|i: int| 0 <= i < t.len() implies (#[trigger] t[i]).1 == t[i].0
                + encode_utf8(t[i].2).len() by {
                if i < u.len() {
                    assert(t[i] == u[i]);
                }
            }
        }
    }
}

/// What the lists of optional matches say.
pub open spec fn pass_views(v: Seq<&Vec<Option<Span>>>) -> Seq<Seq<(int, int, Seq<char>)>> {
    v.map_values(|g: &Vec<Option<Span>>| present(group_views(g@)))
}

/// Picks the candidates of a text from the matches of the URL pattern and of each
/// other pattern in turn.
pub fn from_matches(urls: &Vec<Span>, passes: &Vec<&Vec<Option<Span>>>) -> (r: Vec<String>)
    requires
        in_order(span_views(urls@)),
        forall|i: int|
            0 <= i < passes@.len() ==> in_order(#[trigger] pass_views(passes@)[i]),
    ensures
        texts(r@) == candidates(span_views(urls@), pass_views(passes@)),
        texts(r@).no_duplicates(),
{
    let ghost u = span_views(urls@);
    let ghost all = pass_views(passes@);
    let (out0, ranges0) = first_pass(urls);
    let mut out = out0;
    let mut ranges = ranges0;
    assert(all.take(0) =~= Seq::empty());
    let mut i: usize = 0;
    while i < passes.len()
        invariant
            i <= passes@.len(),
            u == span_views(urls@),
            all == pass_views(passes@),
            forall|i: int| 0 <= i < passes@.len() ==> in_order(#[trigger] all[i]),
            out.wf(),
            out@ == candidates(u, all.take(i as int)),
            sorted_disjoint(ranges@),
            same_ranges(ranges@, occupied_after(u, all.take(i as int))),
        decreases passes.len() - i,
    {
        assert(all.take(i + 1).drop_last() =~= all.take(i as int));
        assert(all.take(i + 1).last() == all[i as int]);
        assert(all[i as int] == present(group_views(passes@[i as int]@)));
        ranges = next_pass(
            &mut out,
            ranges,
            passes[i],
            Ghost(occupied_after(u, all.take(i as int))),
        );
        i += 1;
    }
    assert(all.take(i as int) =~= all);
    out.into_vec()
}

/// The matches of one host pattern in a text.
pub open spec fn hosts_at(k: int) -> spec_fn(Seq<char>) -> Seq<(int, int, Seq<char>)> {
    |c: Seq<char>| hosts_in(c)[k]
}

/// The matches of the URL pattern in a text.
pub open spec fn urls_at() -> spec_fn(Seq<char>) -> Seq<(int, int, Seq<char>)> {
    |c: Seq<char>| urls_in(c)
}

/// The matches in several texts put together, each moved by the bytes before its text.
pub open spec fn matches_together(
    v: Seq<Seq<char>>,
    found: spec_fn(Seq<char>) -> Seq<(int, int, Seq<char>)>,
) -> Seq<(int, int, Seq<char>)> {
    lists_together(v, v.map_values(found))
}

/// Whether no cut runs through a match, nor makes or hides one: for every pattern, the
/// matches in a text are those in its pieces.
pub open spec fn cut_between_matches(text: Seq<char>, v: Seq<Seq<char>>) -> bool {
    &&& urls_in(text) == matches_together(v, urls_at())
    &&& forall|k: int|
        0 <= k < 4 ==> #[trigger] hosts_in(text)[k] == matches_together(v, hosts_at(k))
}

proof fn lemma_nothing_together(v: Seq<Seq<char>>, found: Seq<Seq<(int, int, Seq<char>)>>)
    requires
        found.len() == v.len(),
        forall|i: int| 0 <= i < found.len() ==> (#[trigger] found[i]).len() == 0,
    ensures
        lists_together(v, found) == Seq::<(int, int, Seq<char>)>::empty(),
    decreases v.len(),
{
    if v.len() > 0 {
        let rest = found.skip(1);
        assert forall|i: int| 0 <= i < rest.len() implies (#[trigger] rest[i]).len() == 0 by {
            assert(rest[i] == found[i + 1]);
        }
        lemma_nothing_together(v.skip(1), rest);
        assert(found[0].len() == 0);
        assert(lists_together(v, found) =~= Seq::empty());
    }
}

fn url_spans(searched: &Vec<String>) -> (r: Vec<Vec<Span>>)
    ensures
        r@.len() == searched@.len(),
        forall|i: int|
            0 <= i < r@.len() ==> span_views((#[trigger] r@[i])@) == or_none(
                regex_matches(URL_PATTERN@, searched@[i]@),
            ) && in_order(span_views(r@[i]@)) && all_lie_in(span_views(r@[i]@), searched@[i]@),
        lines_apart(texts(searched@)) ==> urls_in(put_together(texts(searched@)))
            == lists_together(texts(searched@), span_lists(r@)),
{
    match find_all(URL_PATTERN, searched) {
        Some(v) => v,
        None => {
            let mut v: Vec<Vec<Span>> = Vec::new();
            while v.len() < searched.len()
                invariant
                    v@.len() <= searched@.len(),
                    forall|i: int| 0 <= i < v@.len() ==> (#[trigger] v@[i])@.len() == 0,
                decreases searched.len() - v.len(),
            {
                v.push(Vec::new());
            }
            assert forall|i: int| 0 <= i < v@.len() implies span_views((#[trigger] v@[i])@)
                == or_none(regex_matches(URL_PATTERN@, searched@[i]@)) by {
                assert(regex_matches(URL_PATTERN@, searched@[i]@) is None);
                assert(span_views(v@[i]@) =~= Seq::empty());
            }
            proof {
                lemma_nothing_together(texts(searched@), span_lists(v@));
            }
            v
        },
    }
}

fn group_spans(pattern: &str, searched: &Vec<String>) -> (r: Vec<Vec<Option<Span>>>)
    ensures
        r@.len() == searched@.len(),
        forall|i: int|
            0 <= i < r@.len() ==> present(group_views((#[trigger] r@[i])@)) == groups_or_none(
                regex_groups(pattern@, searched@[i]@),
            ) && in_order(present(group_views(r@[i]@))) && all_lie_in(
                present(group_views(r@[i]@)),
                searched@[i]@,
            ),
        is_host_pattern(pattern@) && lines_apart(texts(searched@)) ==> groups_or_none(
            regex_groups(pattern@, put_together(texts(searched@))),
        ) == lists_together(texts(searched@), group_lists(r@)),
{
    match find_groups(pattern, searched) {
        Some(v) => v,
        None => {
            let mut v: Vec<Vec<Option<Span>>> = Vec::new();
            while v.len() < searched.len()
                invariant
                    v@.len() <= searched@.len(),
                    forall|i: int| 0 <= i < v@.len() ==> (#[trigger] v@[i])@.len() == 0,
                decreases searched.len() - v.len(),
            {
                v.push(Vec::new());
            }
            assert forall|i: int| 0 <= i < v@.len() implies present(
                group_views((#[trigger] v@[i])@),
            ) == groups_or_none(regex_groups(pattern@, searched@[i]@)) by {
                assert(regex_groups(pattern@, searched@[i]@) is None);
                assert(group_views(v@[i]@) =~= Seq::empty());
            }
            proof {
                lemma_nothing_together(texts(searched@), group_lists(v@));
            }
            v
        },
    }
}

/// Extracts host-like candidates from several texts; those of one text are pieces of it,
/// each listed once.
pub fn from_texts(searched: &Vec<String>) -> (r: Vec<Vec<String>>)
    ensures
        r@.len() == searched@.len(),
        forall|i: int|
            0 <= i < r@.len() ==> texts((#[trigger] r@[i])@) == text_candidates(searched@[i]@)
                && texts(r@[i]@).no_duplicates() && all_pieces_of(texts(r@[i]@), searched@[i]@)
                && matches_lie_in(searched@[i]@),
        lines_apart(texts(searched@)) ==> cut_between_matches(
            put_together(texts(searched@)),
            texts(searched@),
        ),
{
    let urls = url_spans(searched);
    let brackets = group_spans(BRACKET_IPV6_PATTERN, searched);
    let v6 = group_spans(IPV6_PATTERN, searched);
    let v4 = group_spans(IPV4_PATTERN, searched);
    let domains = group_spans(DOMAIN_PATTERN, searched);
    proof {
        let v = texts(searched@);
        assert(v.map_values(urls_at()) =~= span_lists(urls@));
        assert(v.map_values(hosts_at(0)) =~= group_lists(brackets@));
        assert(v.map_values(hosts_at(1)) =~= group_lists(v6@));
        assert(v.map_values(hosts_at(2)) =~= group_lists(v4@));
        assert(v.map_values(hosts_at(3)) =~= group_lists(domains@));
        if lines_apart(v) {
            let hosts = hosts_in(put_together(v));
            assert forall|k: int| 0 <= k < 4 implies #[trigger] hosts[k] == matches_together(
                v,
                hosts_at(k),
            ) by {
                assert(k == 0 || k == 1 || k == 2 || k == 3);
            }
        }
    }
    let mut out: Vec<Vec<String>> = Vec::new();
    let mut i: usize = 0;
    while i < searched.len()
        invariant
            i <= searched@.len(),
            out@.len() == i,
            urls@.len() == searched@.len(),
            brackets@.len() == searched@.len(),
            v6@.len() == searched@.len(),
            v4@.len() == searched@.len(),
            domains@.len() == searched@.len(),
            forall|j: int|
                0 <= j < urls@.len() ==> span_views((#[trigger] urls@[j])@) == or_none(
                    regex_matches(URL_PATTERN@, searched@[j]@),
                ) && in_order(span_views(urls@[j]@)) && all_lie_in(
                    span_views(urls@[j]@),
                    searched@[j]@,
                ),
            forall|j: int|
                0 <= j < brackets@.len() ==> present(group_views((#[trigger] brackets@[j])@))
                    == groups_or_none(regex_groups(BRACKET_IPV6_PATTERN@, searched@[j]@))
                    && in_order(present(group_views(brackets@[j]@))) && all_lie_in(
                    present(group_views(brackets@[j]@)),
                    searched@[j]@,
                ),
            forall|j: int|
                0 <= j < v6@.len() ==> present(group_views((#[trigger] v6@[j])@))
                    == groups_or_none(regex_groups(IPV6_PATTERN@, searched@[j]@)) && in_order(
                    present(group_views(v6@[j]@)),
                ) && all_lie_in(present(group_views(v6@[j]@)), searched@[j]@),
            forall|j: int|
                0 <= j < v4@.len() ==> present(group_views((#[trigger] v4@[j])@))
                    == groups_or_none(regex_groups(IPV4_PATTERN@, searched@[j]@)) && in_order(
                    present(group_views(v4@[j]@)),
                ) && all_lie_in(present(group_views(v4@[j]@)), searched@[j]@),
            forall|j: int|
                0 <= j < domains@.len() ==> present(group_views((#[trigger] domains@[j])@))
                    == groups_or_none(regex_groups(DOMAIN_PATTERN@, searched@[j]@)) && in_order(
                    present(group_views(domains@[j]@)),
                ) && all_lie_in(present(group_views(domains@[j]@)), searched@[j]@),
            forall|j: int|
                0 <= j < i ==> texts((#[trigger] out@[j])@) == text_candidates(searched@[j]@)
                    && texts(out@[j]@).no_duplicates() && all_pieces_of(
                    texts(out@[j]@),
                    searched@[j]@,
                ) && matches_lie_in(searched@[j]@),
        decreases searched.len() - i,
    {
        let ghost t = searched@[i as int]@;
        let passes: Vec<&Vec<Option<Span>>> = vec![&brackets[i], &v6[i], &v4[i], &domains[i]];
        assert(pass_views(passes@) =~= hosts_in(t));
        proof {
            let p = pass_views(passes@);
            assert(p.len() == 4);
            assert forall|k: int| 0 <= k < p.len() implies all_lie_in(#[trigger] p[k], t) by {}
            lemma_candidates_are_pieces(span_views(urls@[i as int]@), p, t);
        }
        out.push(from_matches(&urls[i], &passes));
        i += 1;
    }
    out
}

/// Extracts host-like candidates from dirty text: pieces of it, each once.
pub fn from_text(text: &str) -> (r: Vec<String>)
    ensures
        texts(r@) == text_candidates(text@),
        texts(r@).no_duplicates(),
        all_pieces_of(texts(r@), text@),
{
    let one: Vec<String> = vec![text.to_string()];
    assert(one@[0]@ == text@);
    let mut lists = from_texts(&one);
    assert(texts(lists@[0]@) == text_candidates(text@));
    lists.remove(0)
}

// ---------------------------------------------------------------------------
// Lines

/// The candidates of lines that each hold one URL or host.
pub open spec fn line_candidates(v: Seq<Seq<char>>) -> Seq<Seq<char>> {
    all_added(Seq::empty(), nonempty(v.map_values(|l: Seq<char>| clean_token(l))))
}

/// Takes each line as one URL or host candidate.
pub fn from_urls(lines: &Vec<String>) -> (r: Vec<String>)
    ensures
        texts(r@) == line_candidates(texts(lines@)),
        texts(r@).no_duplicates(),
{
    let ghost tokens = texts(lines@).map_values(|l: Seq<char>| clean_token(l));
    let mut out = UniqueTexts::new();
    let mut i: usize = 0;
    while i < lines.len()
        invariant
            i <= lines@.len(),
            tokens == texts(lines@).map_values(|l: Seq<char>| clean_token(l)),
            out.wf(),
            out@ == all_added(Seq::empty(), nonempty(tokens.take(i as int))),
        decreases lines.len() - i,
    {
        assert(tokens.take(i + 1).drop_last() =~= tokens.take(i as int));
        assert(tokens.take(i + 1).last() == clean_token(lines@[i as int]@));
        let ghost kept = nonempty(tokens.take(i as int));
        let token = trim_token(lines[i].as_str());
        if !token.as_str().is_empty() {
            out.add(token);
            assert(kept.push(token@).drop_last() =~= kept);
        }
        i += 1;
    }
    assert(tokens.take(i as int) =~= tokens);
    out.into_vec()
}

/// The name behind an optional `DNS:` and an optional `dns:`.
pub open spec fn without_label(part: Seq<char>) -> Seq<char> {
    let upper = if "DNS:"@.is_prefix_of(part) {
        part.skip(4)
    } else {
        part
    };
    if "dns:"@.is_prefix_of(upper) {
        upper.skip(4)
    } else {
        upper
    }
}

/// The names in lines of certificate names, such as `DNS:foo.com, DNS:bar.com`.
pub open spec fn san_names(v: Seq<Seq<char>>) -> Seq<Seq<char>>
    decreases v.len(),
{
    if v.len() == 0 {
        Seq::empty()
    } else {
        san_names(v.drop_last()) + line_names(v.last())
    }
}

/// The names in one line of certificate names.
pub open spec fn line_names(line: Seq<char>) -> Seq<Seq<char>> {
    nonempty(
        nonempty(pieces(line, CharClass::ListSeparator)).map_values(
            |p: Seq<char>| without_label(p),
        ),
    )
}

/// The candidates of several texts.
pub open spec fn texts_candidates(v: Seq<Seq<char>>) -> Seq<Seq<char>>
    decreases v.len(),
{
    if v.len() == 0 {
        Seq::empty()
    } else {
        all_added(texts_candidates(v.drop_last()), text_candidates(v.last()))
    }
}

/// The candidates of lines of certificate names.
pub open spec fn san_candidates(v: Seq<Seq<char>>) -> Seq<Seq<char>> {
    texts_candidates(san_names(v))
}

fn cut_label(part: &[char]) -> (r: &[char])
    ensures
        r@ == without_label(part@),
{
    proof {
        reveal_strlit("DNS:");
        reveal_strlit("dns:");
    }
    let upper = if starts_with(part, "DNS:") {
        let cut = slice_subrange(part, 4, part.len());
        assert(cut@ =~= part@.skip(4));
        cut
    } else {
        part
    };
    if starts_with(upper, "dns:") {
        let cut = slice_subrange(upper, 4, upper.len());
        assert(cut@ =~= upper@.skip(4));
        cut
    } else {
        upper
    }
}

/// The names in one line of certificate names.
pub fn names_in_line(line: &str) -> (r: Vec<String>)
    ensures
        texts(r@) == line_names(line@),
{
    let parts = split(chars_of(line).as_slice(), CharClass::ListSeparator);
    let ghost all = pieces(line@, CharClass::ListSeparator);
    let ghost f = |p: Seq<char>| without_label(p);
    let mut out: Vec<String> = Vec::new();
    let mut i: usize = 0;
    proof {
        assert(nonempty(all.take(0)).map_values(f) =~= Seq::empty());
        assert(texts(out@) =~= nonempty(nonempty(all.take(0)).map_values(f)));
    }
    while i < parts.len()
        invariant
            i <= parts@.len(),
            all == char_texts(parts@),
            f == (|p: Seq<char>| without_label(p)),
            texts(out@) == nonempty(nonempty(all.take(i as int)).map_values(f)),
        decreases parts.len() - i,
    {
        let part = &parts[i];
        let ghost before = texts(out@);
        let ghost kept = nonempty(all.take(i as int));
        assert(all.take(i + 1).drop_last() =~= all.take(i as int));
        assert(all.take(i + 1).last() == part@);
        if part.len() > 0 {
            let name = cut_label(part.as_slice());
            proof {
                let now = kept.push(part@).map_values(f);
                assert(now =~= kept.map_values(f).push(name@));
                assert(now.drop_last() =~= kept.map_values(f));
            }
            if name.len() > 0 {
                out.push(string_of(name));
                assert(texts(out@) =~= before.push(name@));
            }
        }
        i += 1;
    }
    assert(all.take(i as int) =~= all);
    out
}

/// Extracts names from lines such as `DNS:foo.com, DNS:bar.com`.
pub fn from_san(lines: &Vec<String>) -> (r: Vec<String>)
    ensures
        texts(r@) == san_candidates(texts(lines@)),
        texts(r@).no_duplicates(),
{
    let ghost all = texts(lines@);
    let mut names: Vec<String> = Vec::new();
    assert(texts(names@) =~= san_names(all.take(0)));
    let mut i: usize = 0;
    while i < lines.len()
        invariant
            i <= lines@.len(),
            all == texts(lines@),
            texts(names@) == san_names(all.take(i as int)),
        decreases lines.len() - i,
    {
        assert(all.take(i + 1).drop_last() =~= all.take(i as int));
        assert(all.take(i + 1).last() == lines@[i as int]@);
        append_strings(&mut names, names_in_line(lines[i].as_str()));
        i += 1;
    }
    assert(all.take(i as int) =~= all);
    let lists = from_texts(&names);
    let ghost v = texts(names@);
    let mut out = UniqueTexts::new();
    assert(v.take(0) =~= Seq::empty());
    let mut i: usize = 0;
    while i < lists.len()
        invariant
            i <= lists@.len(),
            lists@.len() == v.len(),
            v == texts(names@),
            forall|j: int|
                0 <= j < lists@.len() ==> texts((#[trigger] lists@[j])@) == text_candidates(
                    names@[j]@,
                ),
            out.wf(),
            out@ == texts_candidates(v.take(i as int)),
        decreases lists.len() - i,
    {
        assert(v.take(i + 1).drop_last() =~= v.take(i as int));
        assert(v.take(i + 1).last() == names@[i as int]@);
        out.add_all(&lists[i]);
        i += 1;
    }
    assert(v.take(i as int) =~= v);
    out.into_vec()
}

// ---------------------------------------------------------------------------
// JSON

/// A JSON value of the `serde_json` crate.
#[verifier::external_type_specification]
#[verifier::external_body]
pub struct ExternalJsonValue(serde_json::Value);

/// What a JSON value is: a string, a list, an object with its members in the order of
/// their keys, or something without strings.
pub enum JsonTree {
    Text(Seq<char>),
    List(Seq<JsonTree>),
    Object(Seq<(Seq<char>, JsonTree)>),
    Other,
}

/// What a JSON value holds.
pub uninterp spec fn json_tree(value: serde_json::Value) -> JsonTree;

/// What `serde_json::from_str` reads from a text, if it is one JSON document.
pub uninterp spec fn json_document(text: Seq<char>) -> Option<JsonTree>;

/// What a list of JSON values holds.
pub open spec fn json_trees(v: Seq<serde_json::Value>) -> Seq<JsonTree> {
    v.map_values(|x: serde_json::Value| json_tree(x))
}

/// What the members of an object hold.
pub open spec fn entry_trees(v: Seq<(&str, &serde_json::Value)>) -> Seq<(Seq<char>, JsonTree)> {
    v.map_values(|p: (&str, &serde_json::Value)| (p.0@, json_tree(*p.1)))
}

/// The value of the member with a key.
pub open spec fn member(m: Seq<(Seq<char>, JsonTree)>, key: Seq<char>) -> Option<JsonTree>
    decreases m.len(),
{
    if m.len() == 0 {
        None
    } else if m.last().0 == key {
        Some(m.last().1)
    } else {
        member(m.drop_last(), key)
    }
}

/// Whether a text is a JSON object.
pub open spec fn is_object(text: Seq<char>) -> bool {
    json_document(text) matches Some(JsonTree::Object(_))
}

/// Whether every text of a list is a JSON object.
pub open spec fn all_objects(v: Seq<Seq<char>>) -> bool {
    forall|i: int| 0 <= i < v.len() ==> is_object(#[trigger] v[i])
}

/// What the texts of a list are read as.
pub open spec fn documents(v: Seq<Seq<char>>) -> Seq<JsonTree> {
    v.map_values(|t: Seq<char>| json_document(t)->0)
}

/// The texts of a list, one on a line.
pub open spec fn lines_text(v: Seq<Seq<char>>) -> Seq<char> {
    joined(v, "\n"@)
}

/// The texts of a list as the text of a JSON list.
pub open spec fn list_text(v: Seq<Seq<char>>) -> Seq<char> {
    "["@ + joined(v, ","@) + "]"@
}

/// How deep braces and brackets are nested in a text, those in strings left out, where it
/// begins `depth` deep.
pub open spec fn nesting(s: Seq<char>, in_string: bool, depth: int) -> int
    decreases s.len(),
{
    if s.len() == 0 {
        depth
    } else if in_string {
        if s[0] == '\\' && s.len() >= 2 {
            nesting(s.skip(2), true, depth)
        } else {
            nesting(s.skip(1), s[0] != '"', depth)
        }
    } else if s[0] == '{' || s[0] == '[' {
        nesting(s.skip(1), false, depth + 1)
    } else if s[0] == '}' || s[0] == ']' {
        let rest = nesting(s.skip(1), false, depth - 1);
        if rest > depth {
            rest
        } else {
            depth
        }
    } else {
        nesting(s.skip(1), s[0] == '"', depth)
    }
}

/// Whether the texts of a list are nested so little that a list of them can be read.
pub open spec fn all_shallow(v: Seq<Seq<char>>) -> bool {
    forall|i: int| 0 <= i < v.len() ==> nesting(#[trigger] v[i], false, 0) <= 126
}

/// What a value that was read, or not, stands for.
pub open spec fn tree_read(r: Option<serde_json::Value>) -> Option<JsonTree> {
    match r {
        Some(x) => Some(json_tree(x)),
        None => None,
    }
}

/// Whether a result is the list of the objects, if a text is a list of them, none nested too
/// deep.
pub open spec fn lists_are_read(text: Seq<char>, result: Option<JsonTree>) -> bool {
    forall|v: Seq<Seq<char>>|
        text == #[trigger] list_text(v) && all_objects(v) && all_shallow(v) ==> result == Some(
            JsonTree::List(documents(v)),
        )
}

/// Whether there is no result, if several objects stand in a text, one on a line.
pub open spec fn lines_are_refused(text: Seq<char>, result: Option<JsonTree>) -> bool {
    forall|v: Seq<Seq<char>>|
        text == #[trigger] lines_text(v) && all_objects(v) && v.len() >= 2 ==> result is None
}

/// Calls `serde_json::from_str`. Success and value are fixed by the text. Where JSON objects
/// stand in brackets, with commas between them, the list of them is read, as long as
/// nothing in the text is nested deeper than 127; where several stand one on a line, the
/// text is refused, since only one document may stand in it. Beyond that the grammar is not
/// spelled out here.
#[verifier::external_body]
fn read_json(text: &str) -> (r: Option<serde_json::Value>)
    ensures
        tree_read(r) == json_document(text@),
        lists_are_read(text@, tree_read(r)),
        lines_are_refused(text@, tree_read(r)),
{
    serde_json::from_str::<serde_json::Value>(text).ok()
}

/// Calls `Value::as_str`, which returns the text of a string and nothing else.
#[verifier::external_body]
fn json_text(value: &serde_json::Value) -> (r: Option<&str>)
    ensures
        match r {
            Some(s) => json_tree(*value) == JsonTree::Text(s@),
            None => !(json_tree(*value) is Text),
        },
{
    value.as_str()
}

/// Calls `Value::as_array`, which returns the items of a list and nothing else.
#[verifier::external_body]
fn json_items(value: &serde_json::Value) -> (r: Option<&Vec<serde_json::Value>>)
    ensures
        match r {
            Some(v) => json_tree(*value) == JsonTree::List(json_trees(v@)),
            None => !(json_tree(*value) is List),
        },
{
    value.as_array()
}

/// Calls `Value::as_object` and `Map::iter`: the members of an object in the order of their
/// keys, and nothing for another value.
#[verifier::external_body]
fn json_members(value: &serde_json::Value) -> (r: Option<Vec<(&str, &serde_json::Value)>>)
    ensures
        match r {
            Some(v) => json_tree(*value) == JsonTree::Object(entry_trees(v@)),
            None => !(json_tree(*value) is Object),
        },
{
    value.as_object().map(|m| m.iter().map(|(k, v)| (k.as_str(), v)).collect())
}

/// A JSON value.
pub enum Json {
    Text(String),
    List(Vec<Json>),
    /// The members of an object, in order.
    Object(Vec<(String, Json)>),
    /// A number, a boolean or null.
    Other,
}

impl Json {
    /// What the value is.
    pub open spec fn tree(self) -> JsonTree
        decreases self, 0int, 0int,
    {
        match self {
            Json::Text(s) => JsonTree::Text(s@),
            Json::List(v) => JsonTree::List(list_trees(v@, v@.len() as int)),
            Json::Object(v) => JsonTree::Object(object_trees(v@, v@.len() as int)),
            Json::Other => JsonTree::Other,
        }
    }
}

/// What the first `n` values of a list are.
pub open spec fn list_trees(v: Seq<Json>, n: int) -> Seq<JsonTree>
    decreases v, 1int, n,
{
    if n <= 0 || n > v.len() {
        Seq::empty()
    } else {
        list_trees(v, n - 1).push(v[n - 1].tree())
    }
}

/// What the first `n` members of an object are.
pub open spec fn object_trees(v: Seq<(String, Json)>, n: int) -> Seq<(Seq<char>, JsonTree)>
    decreases v, 1int, n,
{
    if n <= 0 || n > v.len() {
        Seq::empty()
    } else {
        object_trees(v, n - 1).push((v[n - 1].0@, v[n - 1].1.tree()))
    }
}

proof fn lemma_list_trees(v: Seq<Json>, n: int)
    requires
        0 <= n <= v.len(),
    ensures
        list_trees(v, n).len() == n,
        forall|i: int| 0 <= i < n ==> #[trigger] list_trees(v, n)[i] == v[i].tree(),
    decreases n,
{
    if n > 0 {
        lemma_list_trees(v, n - 1);
    }
}

proof fn lemma_object_trees(v: Seq<(String, Json)>, n: int)
    requires
        0 <= n <= v.len(),
    ensures
        object_trees(v, n).len() == n,
        forall|i: int|
            0 <= i < n ==> #[trigger] object_trees(v, n)[i] == (v[i].0@, v[i].1.tree()),
    decreases n,
{
    if n > 0 {
        lemma_object_trees(v, n - 1);
    }
}

fn take_json(value: &serde_json::Value) -> (r: Json)
    ensures
        r.tree() == json_tree(*value),
    decreases json_tree(*value),
{
    let ghost tree = json_tree(*value);
    if let Some(s) = json_text(value) {
        return Json::Text(s.to_string());
    }
    if let Some(items) = json_items(value) {
        let ghost trees = json_trees(items@);
        let mut out: Vec<Json> = Vec::new();
        let mut i: usize = 0;
        while i < items.len()
            invariant
                i <= items@.len(),
                tree == json_tree(*value),
                tree == JsonTree::List(trees),
                trees == json_trees(items@),
                out@.len() == i,
                forall|j: int| 0 <= j < i ==> (#[trigger] out@[j]).tree() == trees[j],
            decreases items.len() - i,
        {
            assert(trees[i as int] == json_tree(items@[i as int]));
            assert(decreases_to!(trees => trees[i as int]));
            assert(decreases_to!(tree => tree->List_0));
            let item = take_json(&items[i]);
            out.push(item);
            i += 1;
        }
        proof {
            lemma_list_trees(out@, out@.len() as int);
            assert(list_trees(out@, out@.len() as int) =~= trees);
        }
        return Json::List(out);
    }
    if let Some(members) = json_members(value) {
        let ghost m = entry_trees(members@);
        let mut out: Vec<(String, Json)> = Vec::new();
        let mut i: usize = 0;
        while i < members.len()
            invariant
                i <= members@.len(),
                tree == json_tree(*value),
                tree == JsonTree::Object(m),
                m == entry_trees(members@),
                out@.len() == i,
                forall|j: int|
                    0 <= j < i ==> ((#[trigger] out@[j]).0@, out@[j].1.tree()) == m[j],
            decreases members.len() - i,
        {
            assert(m[i as int] == (members@[i as int].0@, json_tree(*members@[i as int].1)));
            assert(decreases_to!(m => m[i as int]));
            assert(decreases_to!(m[i as int] => m[i as int].1));
            assert(decreases_to!(tree => tree->Object_0));
            let (key, member) = members[i];
            let item = take_json(member);
            out.push((key.to_string(), item));
            i += 1;
        }
        proof {
            lemma_object_trees(out@, out@.len() as int);
            assert(object_trees(out@, out@.len() as int) =~= m);
        }
        return Json::Object(out);
    }
    Json::Other
}

/// The strings under the given keys of an object.
pub open spec fn field_strings(
    m: Seq<(Seq<char>, JsonTree)>,
    fields: Seq<Seq<char>>,
) -> Seq<Seq<char>>
    decreases fields.len(),
{
    if fields.len() == 0 {
        Seq::empty()
    } else {
        let rest = field_strings(m, fields.drop_last());
        match member(m, fields.last()) {
            Some(JsonTree::Text(s)) => rest.push(s),
            _ => rest,
        }
    }
}

/// The strings of a value, in order. When keys are given, only those directly under
/// one of the keys of an object.
pub open spec fn strings_in(tree: JsonTree, fields: Seq<Seq<char>>) -> Seq<Seq<char>>
    decreases tree, 0int, 0int,
{
    if fields.len() > 0 {
        match tree {
            JsonTree::Object(m) => field_strings(m, fields),
            _ => Seq::empty(),
        }
    } else {
        match tree {
            JsonTree::Text(s) => seq![s],
            JsonTree::List(items) => strings_of_list(items, fields, items.len() as int),
            JsonTree::Object(m) => strings_of_members(m, fields, m.len() as int),
            JsonTree::Other => Seq::empty(),
        }
    }
}

/// The strings of the first `n` items.
pub open spec fn strings_of_list(
    items: Seq<JsonTree>,
    fields: Seq<Seq<char>>,
    n: int,
) -> Seq<Seq<char>>
    decreases items, 1int, n,
{
    if n <= 0 || n > items.len() {
        Seq::empty()
    } else {
        strings_of_list(items, fields, n - 1) + strings_in(items[n - 1], fields)
    }
}

/// The strings of the values of the first `n` members.
pub open spec fn strings_of_members(
    m: Seq<(Seq<char>, JsonTree)>,
    fields: Seq<Seq<char>>,
    n: int,
) -> Seq<Seq<char>>
    decreases m, 1int, n,
{
    if n <= 0 || n > m.len() {
        Seq::empty()
    } else {
        strings_of_members(m, fields, n - 1) + strings_in(m[n - 1].1, fields)
    }
}

/// The strings of a whole document: a list at the top is taken item by item.
pub open spec fn document_strings(tree: JsonTree, fields: Seq<Seq<char>>) -> Seq<Seq<char>> {
    match tree {
        JsonTree::List(items) => strings_of_list(items, fields, items.len() as int),
        _ => strings_in(tree, fields),
    }
}

/// The strings of the first `n` lines that are JSON documents.
pub open spec fn line_strings(
    v: Seq<Seq<char>>,
    fields: Seq<Seq<char>>,
    n: int,
) -> Seq<Seq<char>>
    decreases n,
{
    if n <= 0 || n > v.len() {
        Seq::empty()
    } else {
        let line = trimmed(v[n - 1], CharClass::Whitespace);
        let rest = line_strings(v, fields, n - 1);
        if line.len() == 0 {
            rest
        } else {
            match json_document(line) {
                Some(tree) => rest + strings_in(tree, fields),
                None => rest,
            }
        }
    }
}

/// The strings of a JSON document or, when the text is none, of its lines that are.
pub open spec fn json_strings(stream: Seq<char>, fields: Seq<Seq<char>>) -> Seq<Seq<char>> {
    let text = trimmed(stream, CharClass::Whitespace);
    if text.len() == 0 {
        Seq::empty()
    } else {
        match json_document(text) {
            Some(tree) => document_strings(tree, fields),
            None => line_strings(lines(stream), fields, lines(stream).len() as int),
        }
    }
}

/// Whether a string is taken as one URL.
pub open spec fn url_like(s: Seq<char>) -> bool {
    let t = trimmed(s, CharClass::Whitespace);
    "http://"@.is_prefix_of(t) || "https://"@.is_prefix_of(t) || "//"@.is_prefix_of(t)
}

/// The candidates of one string.
pub open spec fn string_candidates(s: Seq<char>) -> Seq<Seq<char>> {
    if url_like(s) {
        line_candidates(seq![s])
    } else {
        text_candidates(s)
    }
}

/// The candidates of several strings.
pub open spec fn strings_candidates(v: Seq<Seq<char>>) -> Seq<Seq<char>>
    decreases v.len(),
{
    if v.len() == 0 {
        Seq::empty()
    } else {
        all_added(strings_candidates(v.drop_last()), string_candidates(v.last()))
    }
}

fn append_strings(out: &mut Vec<String>, more: Vec<String>)
    ensures
        texts(final(out)@) == texts(old(out)@) + texts(more@),
{
    let mut rest = more;
    out.append(&mut rest);
    assert(texts(out@) =~= texts(old(out)@) + texts(more@));
}

fn find_member<'a>(members: &'a Vec<(String, Json)>, key: &str) -> (r: Option<&'a Json>)
    ensures
        match r {
            Some(v) => member(object_trees(members@, members@.len() as int), key@) == Some(
                v.tree(),
            ),
            None => member(object_trees(members@, members@.len() as int), key@) is None,
        },
{
    let ghost m = object_trees(members@, members@.len() as int);
    let mut n: usize = members.len();
    while n > 0
        invariant
            n <= members@.len(),
            m == object_trees(members@, members@.len() as int),
            member(m, key@) == member(object_trees(members@, n as int), key@),
        decreases n,
    {
        let ghost now = object_trees(members@, n as int);
        assert(now.drop_last() =~= object_trees(members@, n - 1));
        assert(now.last() == (members@[n - 1].0@, members@[n - 1].1.tree()));
        if same_str(members[n - 1].0.as_str(), key) {
            return Some(&members[n - 1].1);
        }
        n -= 1;
    }
    None
}

fn walk_fields(members: &Vec<(String, Json)>, fields: &Vec<String>) -> (r: Vec<String>)
    ensures
        texts(r@) == field_strings(
            object_trees(members@, members@.len() as int),
            texts(fields@),
        ),
{
    let ghost m = object_trees(members@, members@.len() as int);
    let ghost all = texts(fields@);
    let mut out: Vec<String> = Vec::new();
    assert(texts(out@) =~= field_strings(m, all.take(0)));
    let mut i: usize = 0;
    while i < fields.len()
        invariant
            i <= fields@.len(),
            m == object_trees(members@, members@.len() as int),
            all == texts(fields@),
            texts(out@) == field_strings(m, all.take(i as int)),
        decreases fields.len() - i,
    {
        let ghost before = texts(out@);
        assert(all.take(i + 1).drop_last() =~= all.take(i as int));
        assert(all.take(i + 1).last() == fields@[i as int]@);
        if let Some(Json::Text(s)) = find_member(members, fields[i].as_str()) {
            out.push(s.clone());
            assert(texts(out@) =~= before.push(s@));
        }
        i += 1;
    }
    assert(all.take(i as int) =~= all);
    out
}

fn walk_items(items: &Vec<Json>, fields: &Vec<String>) -> (r: Vec<String>)
    ensures
        texts(r@) == strings_of_list(
            list_trees(items@, items@.len() as int),
            texts(fields@),
            items@.len() as int,
        ),
    decreases items@, 1int,
{
    let ghost trees = list_trees(items@, items@.len() as int);
    proof {
        lemma_list_trees(items@, items@.len() as int);
    }
    let mut out: Vec<String> = Vec::new();
    assert(texts(out@) =~= strings_of_list(trees, texts(fields@), 0));
    let mut i: usize = 0;
    while i < items.len()
        invariant
            i <= items@.len(),
            trees.len() == items@.len(),
            forall|j: int| 0 <= j < trees.len() ==> #[trigger] trees[j] == items@[j].tree(),
            texts(out@) == strings_of_list(trees, texts(fields@), i as int),
        decreases items.len() - i,
    {
        assert(trees[i as int] == items@[i as int].tree());
        assert(decreases_to!(items@ => items@[i as int]));
        append_strings(&mut out, walk(&items[i], fields));
        i += 1;
    }
    out
}

/// Collects the strings of a JSON value. When keys are given, only those directly
/// under one of the keys of an object.
pub fn walk(value: &Json, fields: &Vec<String>) -> (r: Vec<String>)
    ensures
        texts(r@) == strings_in(value.tree(), texts(fields@)),
    decreases value, 0int,
{
    let mut out: Vec<String> = Vec::new();
    assert(texts(out@) =~= Seq::empty());
    if fields.len() > 0 {
        if let Json::Object(members) = value {
            return walk_fields(members, fields);
        }
        return out;
    }
    match value {
        Json::Text(s) => {
            out.push(s.clone());
            assert(texts(out@) =~= seq![s@]);
        },
        Json::List(items) => {
            assert(decreases_to!(value => items));
            assert(decreases_to!(items => items@));
            proof {
                lemma_list_trees(items@, items@.len() as int);
            }
            return walk_items(items, fields);
        },
        Json::Object(members) => {
            let ghost m = object_trees(members@, members@.len() as int);
            proof {
                lemma_object_trees(members@, members@.len() as int);
            }
            assert(texts(out@) =~= strings_of_members(m, texts(fields@), 0));
            let mut i: usize = 0;
            while i < members.len()
                invariant
                    i <= members@.len(),
                    value is Object,
                    value->Object_0 == *members,
                    m.len() == members@.len(),
                    forall|j: int|
                        0 <= j < m.len() ==> #[trigger] m[j] == (
                            members@[j].0@,
                            members@[j].1.tree(),
                        ),
                    texts(out@) == strings_of_members(m, texts(fields@), i as int),
                decreases members.len() - i,
            {
                assert(m[i as int].1 == members@[i as int].1.tree());
                assert(decreases_to!(value => value->Object_0));
                assert(decreases_to!(members => members@));
                assert(decreases_to!(members@ => members@[i as int]));
                assert(decreases_to!(members@[i as int] => members@[i as int].1));
                append_strings(&mut out, walk(&members[i].1, fields));
                i += 1;
            }
        },
        Json::Other => {},
    }
    out
}

fn walk_document(value: &Json, fields: &Vec<String>) -> (r: Vec<String>)
    ensures
        texts(r@) == document_strings(value.tree(), texts(fields@)),
{
    match value {
        Json::List(items) => {
            proof {
                lemma_list_trees(items@, items@.len() as int);
            }
            walk_items(items, fields)
        },
        _ => walk(value, fields),
    }
}

fn walk_lines(stream: &str, fields: &Vec<String>) -> (r: Vec<String>)
    ensures
        texts(r@) == line_strings(lines(stream@), texts(fields@), lines(stream@).len() as int),
{
    let parts = lines_of(chars_of(stream).as_slice());
    let ghost all = lines(stream@);
    let mut out: Vec<String> = Vec::new();
    assert(texts(out@) =~= line_strings(all, texts(fields@), 0));
    let mut i: usize = 0;
    while i < parts.len()
        invariant
            i <= parts@.len(),
            all == char_texts(parts@),
            texts(out@) == line_strings(all, texts(fields@), i as int),
        decreases parts.len() - i,
    {
        assert(all[i as int] == parts@[i as int]@);
        let line = trim(parts[i].as_slice(), CharClass::Whitespace);
        if line.len() > 0 {
            if let Some(value) = read_json(string_of(line).as_str()) {
                append_strings(&mut out, walk(&take_json(&value), fields));
            }
        }
        i += 1;
    }
    out
}

/// Collects the candidates of several strings, each once.
pub fn from_strings(strings: &Vec<String>) -> (r: Vec<String>)
    ensures
        texts(r@) == strings_candidates(texts(strings@)),
        texts(r@).no_duplicates(),
{
    let ghost all = texts(strings@);
    let found = from_texts(strings);
    let mut out = UniqueTexts::new();
    assert(all.take(0) =~= Seq::empty());
    let mut i: usize = 0;
    while i < strings.len()
        invariant
            i <= strings@.len(),
            all == texts(strings@),
            found@.len() == strings@.len(),
            forall|j: int|
                0 <= j < found@.len() ==> texts((#[trigger] found@[j])@) == text_candidates(
                    strings@[j]@,
                ),
            out.wf(),
            out@ == strings_candidates(all.take(i as int)),
        decreases strings.len() - i,
    {
        let s = strings[i].as_str();
        assert(all.take(i + 1).drop_last() =~= all.take(i as int));
        assert(all.take(i + 1).last() == s@);
        if is_url_like(s) {
            let one: Vec<String> = vec![s.to_string()];
            assert(texts(one@) =~= seq![s@]);
            out.add_all(&from_urls(&one));
        } else {
            out.add_all(&found[i]);
        }
        i += 1;
    }
    assert(all.take(i as int) =~= all);
    out.into_vec()
}

fn is_url_like(s: &str) -> (r: bool)
    ensures
        r == url_like(s@),
{
    let chars = chars_of(s);
    let t = trim(chars.as_slice(), CharClass::Whitespace);
    starts_with(t, "http://") || starts_with(t, "https://") || starts_with(t, "//")
}

/// Extracts candidates from a JSON document or from lines of JSON. When `fields` is not
/// empty, only strings directly under those keys of an object are scanned, otherwise
/// every string value. JSON objects give the same candidates whether they stand one on a
/// line, with or without a line feed at the end, or in a list, unless they are nested too
/// deep for a list of them to be read.
pub fn from_json(stream: &str, fields: &Vec<String>) -> (r: Vec<String>)
    ensures
        texts(r@) == strings_candidates(json_strings(stream@, texts(fields@))),
        texts(r@).no_duplicates(),
        forall|v: Seq<Seq<char>>|
            object_lines(v) && (stream@ == #[trigger] lines_text(v) || stream@ == lines_text(
                v,
            ).push('\n')) ==> texts(r@) == strings_candidates(object_strings(v, texts(fields@))),
        forall|v: Seq<Seq<char>>|
            object_lines(v) && all_shallow(v) && stream@ == #[trigger] list_text(v) ==> texts(r@)
                == strings_candidates(object_strings(v, texts(fields@))),
{
    let chars = chars_of(stream);
    let text = trim(chars.as_slice(), CharClass::Whitespace);
    let strings = if text.len() == 0 {
        let none: Vec<String> = Vec::new();
        assert(texts(none@) =~= Seq::empty());
        none
    } else {
        match read_json(string_of(text).as_str()) {
            Some(value) => walk_document(&take_json(&value), fields),
            None => walk_lines(stream, fields),
        }
    };
    proof {
        assert forall|v: Seq<Seq<char>>|
            object_lines(v) && (stream@ == #[trigger] lines_text(v) || stream@ == lines_text(
                v,
            ).push('\n')) implies json_strings(stream@, texts(fields@)) == object_strings(
            v,
            texts(fields@),
        ) by {
            lemma_stream_of_lines(v, stream@);
            lemma_object_lines(v, stream@, texts(fields@));
        }
        assert forall|v: Seq<Seq<char>>|
            object_lines(v) && all_shallow(v) && stream@ == #[trigger] list_text(v) implies
            json_strings(stream@, texts(fields@)) == object_strings(v, texts(fields@)) by {
            lemma_list_edges(v);
            lemma_unchanged_by_trim(stream@, CharClass::Whitespace);
            lemma_object_list(v, texts(fields@));
        }
    }
    from_strings(&strings)
}

// ---------------------------------------------------------------------------
// Laws

proof fn lemma_lines_and_items(
    v: Seq<Seq<char>>,
    trees: Seq<JsonTree>,
    fields: Seq<Seq<char>>,
    n: int,
)
    requires
        0 <= n <= v.len(),
        v.len() == trees.len(),
        forall|i: int|
            0 <= i < v.len() ==> (trimmed(#[trigger] v[i], CharClass::Whitespace).len() > 0
                && json_document(trimmed(v[i], CharClass::Whitespace)) == Some(trees[i])),
    ensures
        line_strings(v, fields, n) == strings_of_list(trees, fields, n),
    decreases n,
{
    if n > 0 {
        lemma_lines_and_items(v, trees, fields, n - 1);
        assert(json_document(trimmed(v[n - 1], CharClass::Whitespace)) == Some(trees[n - 1]));
    }
}

/// Whether a text is written on one line, between braces.
pub open spec fn on_one_line(t: Seq<char>) -> bool {
    t.len() > 0 && t[0] == '{' && t.last() == '}' && !has_any(t, CharClass::Is('\n'))
}

/// Whether a list holds JSON objects, at least one, each written on one line.
pub open spec fn object_lines(v: Seq<Seq<char>>) -> bool {
    &&& v.len() >= 1
    &&& all_objects(v)
    &&& forall|i: int| 0 <= i < v.len() ==> on_one_line(#[trigger] v[i])
}

/// The strings of JSON objects, one after the other.
pub open spec fn object_strings(v: Seq<Seq<char>>, fields: Seq<Seq<char>>) -> Seq<Seq<char>> {
    strings_of_list(documents(v), fields, v.len() as int)
}

proof fn lemma_pieces_of_lines(v: Seq<Seq<char>>)
    requires
        v.len() >= 1,
        forall|i: int| 0 <= i < v.len() ==> on_one_line(#[trigger] v[i]),
    ensures
        pieces(lines_text(v), CharClass::Is('\n')) == v,
        lines_text(v).len() > 0,
        lines_text(v)[0] == '{',
        lines_text(v).last() == '}',
    decreases v.len(),
{
    let k = CharClass::Is('\n');
    reveal_strlit("\n");
    assert("\n"@ =~= seq!['\n']);
    let last = v[v.len() - 1];
    assert(on_one_line(last));
    if v.len() == 1 {
        lemma_one_piece(last, k);
        assert(v =~= seq![last]);
    } else {
        let w = v.drop_last();
        assert forall|i: int| 0 <= i < w.len() implies on_one_line(#[trigger] w[i]) by {
            assert(w[i] == v[i]);
        }
        lemma_pieces_of_lines(w);
        lemma_pieces_snoc(lines_text(w), '\n', last, k, 0);
        assert(w.push(last) =~= v);
    }
}

proof fn lemma_stream_of_lines(v: Seq<Seq<char>>, stream: Seq<char>)
    requires
        v.len() >= 1,
        forall|i: int| 0 <= i < v.len() ==> on_one_line(#[trigger] v[i]),
        stream == lines_text(v) || stream == lines_text(v).push('\n'),
    ensures
        trimmed(stream, CharClass::Whitespace) == lines_text(v),
        lines_text(v).len() > 0,
        lines(stream) == v,
{
    let text = lines_text(v);
    let k = CharClass::Is('\n');
    lemma_pieces_of_lines(v);
    lemma_unchanged_by_trim(text, CharClass::Whitespace);
    assert forall|i: int| 0 <= i < v.len() implies without_return(#[trigger] v[i]) == v[i] by {
        assert(on_one_line(v[i]));
    }
    if stream == text {
        assert(on_one_line(v[v.len() - 1]));
    } else {
        let n = text.len() as int;
        assert(without_leading(stream, CharClass::Whitespace) =~= stream);
        assert(stream[n] == '\n' && stream[n - 1] == '}');
        assert(end_before(stream, CharClass::Whitespace, n) == n);
        assert(stream.subrange(0, n) =~= text);
        lemma_pieces_snoc(text, '\n', Seq::empty(), k, 0);
        assert(text + seq!['\n'] + Seq::<char>::empty() =~= stream);
        assert(v.push(Seq::<char>::empty()).drop_last() =~= v);
    }
    assert(lines(stream) =~= v);
}

/// JSON objects, one on a line, are read line by line.
proof fn lemma_object_lines(v: Seq<Seq<char>>, stream: Seq<char>, fields: Seq<Seq<char>>)
    requires
        object_lines(v),
        stream == lines_text(v) || stream == lines_text(v).push('\n'),
        v.len() >= 2 ==> json_document(lines_text(v)) is None,
    ensures
        json_strings(stream, fields) == object_strings(v, fields),
{
    let trees = documents(v);
    lemma_stream_of_lines(v, stream);
    assert forall|i: int| 0 <= i < v.len() implies (trimmed(
        #[trigger] v[i],
        CharClass::Whitespace,
    ).len() > 0 && json_document(trimmed(v[i], CharClass::Whitespace)) == Some(trees[i])) by {
        assert(on_one_line(v[i]) && is_object(v[i]));
        lemma_unchanged_by_trim(v[i], CharClass::Whitespace);
    }
    lemma_lines_and_items(v, trees, fields, v.len() as int);
    if v.len() == 1 {
        assert(is_object(v[0]));
        assert(strings_of_list(trees, fields, 0) =~= Seq::empty());
        assert(strings_of_list(trees, fields, 1) =~= strings_in(trees[0], fields));
    }
}

/// A list of JSON objects is read item by item.
proof fn lemma_object_list(v: Seq<Seq<char>>, fields: Seq<Seq<char>>)
    requires
        json_document(list_text(v)) == Some(JsonTree::List(documents(v))),
    ensures
        json_strings(list_text(v), fields) == object_strings(v, fields),
{
    let text = list_text(v);
    lemma_list_edges(v);
    lemma_unchanged_by_trim(text, CharClass::Whitespace);
}

proof fn lemma_list_edges(v: Seq<Seq<char>>)
    ensures
        list_text(v).len() > 0,
        list_text(v)[0] == '[',
        list_text(v).last() == ']',
{
    reveal_strlit("[");
    reveal_strlit("]");
    let middle = joined(v, ","@);
    assert(list_text(v)[0] == "["@[0]);
    assert(list_text(v)[middle.len() as int + 1] == "]"@[0]);
}

/// A token that begins with an ASCII letter or digit, `[`, `*` or `:` and ends with an ASCII
/// letter or digit, `]` or `*` is taken as it is.
pub proof fn law_clean_tokens_are_kept(t: Seq<char>)
    requires
        t.len() > 0,
        is_letter(t[0]) || is_digit(t[0]) || t[0] == '[' || t[0] == '*' || t[0] == ':',
        is_letter(t.last()) || is_digit(t.last()) || t.last() == ']' || t.last() == '*',
    ensures
        clean_token(t) == t,
        candidate(t) == t,
{
    lemma_unchanged_by_trim(t, CharClass::Whitespace);
    lemma_unchanged_by_trim(t, CharClass::TokenEdge);
    assert(without_leading(t, CharClass::NotCandidateStart) =~= t);
    assert(without_trailing(t, CharClass::NotCandidateEnd) =~= t);
}

/// Candidates are cut from places of the text that do not overlap.
pub proof fn law_taken_ranges_are_disjoint(
    urls: Seq<(int, int, Seq<char>)>,
    passes: Seq<Seq<(int, int, Seq<char>)>>,
)
    requires
        in_order(urls),
        forall|i: int| 0 <= i < passes.len() ==> in_order(#[trigger] passes[i]),
    ensures
        forall|i: int, j: int|
            0 <= i < j < occupied_after(urls, passes).len() ==> {
                let a = #[trigger] occupied_after(urls, passes)[i];
                let b = #[trigger] occupied_after(urls, passes)[j];
                !(a.0 < b.1 && a.1 > b.0)
            },
    decreases passes.len(),
{
    if passes.len() > 0 {
        let rest = passes.drop_last();
        assert forall|i: int| 0 <= i < rest.len() implies in_order(#[trigger] rest[i]) by {
            assert(rest[i] == passes[i]);
        }
        law_taken_ranges_are_disjoint(urls, rest);
        let before = occupied_after(urls, rest);
        let pass = passes[passes.len() - 1];
        let t = taken_of(pass, before);
        let after = occupied_after(urls, passes);
        assert(in_order(pass));
        lemma_taken_of(pass, before);
        lemma_taken_in_order(pass, before);
        assert forall|i: int, j: int| 0 <= i < j < after.len() implies {
            let a = #[trigger] after[i];
            let b = #[trigger] after[j];
            !(a.0 < b.1 && a.1 > b.0)
        } by {
            let n = before.len();
            if j < n {
                assert(after[i] == before[i] && after[j] == before[j]);
            } else if i < n {
                assert(after[i] == before[i] && after[j] == t[j - n]);
                assert(taken(t[j - n], before));
            } else {
                assert(after[i] == t[i - n] && after[j] == t[j - n]);
                assert(t[i - n].1 <= t[j - n].0);
            }
        }
    }
}

// ---------------------------------------------------------------------------
// Texts in two parts

/// Whether matches lie behind the beginning of a text.
pub open spec fn from_zero(v: Seq<(int, int, Seq<char>)>) -> bool {
    forall|i: int| 0 <= i < v.len() ==> 0 <= (#[trigger] v[i]).0 <= v[i].1
}

/// Whether matches lie among the first `n` bytes.
pub open spec fn within(v: Seq<(int, int, Seq<char>)>, n: int) -> bool {
    forall|i: int| 0 <= i < v.len() ==> 0 <= (#[trigger] v[i]).0 <= v[i].1 <= n
}

/// The matches in a text whose first part has `n` bytes, from those in either part.
pub open spec fn both_parts(
    a: Seq<Seq<(int, int, Seq<char>)>>,
    b: Seq<Seq<(int, int, Seq<char>)>>,
    n: int,
) -> Seq<Seq<(int, int, Seq<char>)>> {
    Seq::new(a.len(), |k: int| a[k] + moved(b[k], n))
}

proof fn lemma_encoded_concat(a: Seq<char>, b: Seq<char>)
    ensures
        encode_utf8(a + b) == encode_utf8(a) + encode_utf8(b),
    decreases a.len(),
{
    if a.len() == 0 {
        assert(a + b =~= b);
        assert(encode_utf8(a) + encode_utf8(b) =~= encode_utf8(b));
    } else {
        lemma_encoded_concat(a.drop_first(), b);
        assert((a + b).drop_first() =~= a.drop_first() + b);
        assert((a + b)[0] == a[0]);
        assert(encode_utf8(a + b) =~= encode_utf8(a) + encode_utf8(b));
    }
}

/// Matches that are pieces of a text lie among its bytes.
pub proof fn lemma_pieces_are_within(v: Seq<(int, int, Seq<char>)>, text: Seq<char>)
    requires
        all_lie_in(v, text),
        forall|i: int|
            0 <= i < v.len() ==> (#[trigger] v[i]).1 == v[i].0 + encode_utf8(v[i].2).len(),
    ensures
        within(v, encode_utf8(text).len() as int),
{
    assert forall|k: int| 0 <= k < v.len() implies 0 <= (#[trigger] v[k]).0 <= v[k].1
        <= encode_utf8(text).len() by {
        let m = v[k];
        assert(lies_in(m, text));
        let i = choose|i: int|
            0 <= i && i + m.2.len() <= text.len() && m.2 == text.subrange(i, i + m.2.len()) && m.0
                == (#[trigger] encode_utf8(text.take(i))).len();
        let head = text.take(i);
        let tail = text.skip(i + m.2.len() as int);
        assert(text =~= head + m.2 + tail);
        lemma_encoded_concat(head, m.2);
        lemma_encoded_concat(head + m.2, tail);
    }
}

proof fn lemma_taken_concat(
    a: Seq<(int, int, Seq<char>)>,
    b: Seq<(int, int, Seq<char>)>,
    occupied: Seq<(int, int, Seq<char>)>,
)
    ensures
        taken_of(a + b, occupied) == taken_of(a, occupied) + taken_of(b, occupied),
    decreases b.len(),
{
    if b.len() == 0 {
        assert(a + b =~= a);
        assert(taken_of(a, occupied) + taken_of(b, occupied) =~= taken_of(a, occupied));
    } else {
        lemma_taken_concat(a, b.drop_last(), occupied);
        assert((a + b).drop_last() =~= a + b.drop_last());
        assert(taken_of(a + b, occupied) =~= taken_of(a, occupied) + taken_of(b, occupied));
    }
}

proof fn lemma_taken_same(
    v: Seq<(int, int, Seq<char>)>,
    x: Seq<(int, int, Seq<char>)>,
    y: Seq<(int, int, Seq<char>)>,
)
    requires
        forall|i: int|
            0 <= i < v.len() ==> overlapping((#[trigger] v[i]).0, v[i].1, x) == overlapping(
                v[i].0,
                v[i].1,
                y,
            ),
    ensures
        taken_of(v, x) == taken_of(v, y),
    decreases v.len(),
{
    if v.len() > 0 {
        let w = v.drop_last();
        assert forall|i: int| 0 <= i < w.len() implies overlapping((#[trigger] w[i]).0, w[i].1, x)
            == overlapping(w[i].0, w[i].1, y) by {
            assert(w[i] == v[i]);
        }
        lemma_taken_same(w, x, y);
        assert(v.last() == v[v.len() - 1]);
    }
}

proof fn lemma_taken_moved(
    v: Seq<(int, int, Seq<char>)>,
    occupied: Seq<(int, int, Seq<char>)>,
    n: int,
)
    ensures
        taken_of(moved(v, n), moved(occupied, n)) == moved(taken_of(v, occupied), n),
    decreases v.len(),
{
    if v.len() == 0 {
        assert(moved(v, n) =~= Seq::empty());
        assert(moved(taken_of(v, occupied), n) =~= Seq::empty());
    } else {
        let w = v.drop_last();
        let m = v.last();
        lemma_taken_moved(w, occupied, n);
        assert(moved(v, n).drop_last() =~= moved(w, n));
        let far = moved(occupied, n);
        assert(overlapping(m.0 + n, m.1 + n, far) == overlapping(m.0, m.1, occupied)) by {
            if overlapping(m.0, m.1, occupied) {
                let i = choose|i: int|
                    0 <= i < occupied.len() && (#[trigger] occupied[i]).0 < m.1 && occupied[i].1
                        > m.0;
                assert(far[i].0 < m.1 + n && far[i].1 > m.0 + n);
            }
            if overlapping(m.0 + n, m.1 + n, far) {
                let i = choose|i: int|
                    0 <= i < far.len() && (#[trigger] far[i]).0 < m.1 + n && far[i].1 > m.0 + n;
                assert(occupied[i].0 < m.1 && occupied[i].1 > m.0);
            }
        }
        assert(moved(taken_of(v, occupied), n) =~= taken_of(moved(v, n), far));
    }
}

/// Which matches of a text in two parts are taken: those of either part.
proof fn lemma_taken_in_parts(
    a: Seq<(int, int, Seq<char>)>,
    b: Seq<(int, int, Seq<char>)>,
    near: Seq<(int, int, Seq<char>)>,
    far: Seq<(int, int, Seq<char>)>,
    all: Seq<(int, int, Seq<char>)>,
    n: int,
)
    requires
        within(a, n),
        from_zero(b),
        within(near, n),
        from_zero(far),
        forall|m: (int, int, Seq<char>)| #[trigger]
            all.contains(m) <==> near.contains(m) || moved(far, n).contains(m),
    ensures
        taken_of(a + moved(b, n), all) == taken_of(a, near) + moved(taken_of(b, far), n),
{
    let fb = moved(b, n);
    let ff = moved(far, n);
    lemma_taken_concat(a, fb, all);
    assert forall|i: int| 0 <= i < a.len() implies overlapping((#[trigger] a[i]).0, a[i].1, all)
        == overlapping(a[i].0, a[i].1, near) by {
        let m = a[i];
        if overlapping(m.0, m.1, all) {
            let k = choose|k: int|
                0 <= k < all.len() && (#[trigger] all[k]).0 < m.1 && all[k].1 > m.0;
            assert(all.contains(all[k]));
            if near.contains(all[k]) {
                let j = choose|j: int| 0 <= j < near.len() && near[j] == all[k];
                assert(near[j].0 < m.1 && near[j].1 > m.0);
            } else {
                let j = choose|j: int| 0 <= j < ff.len() && ff[j] == all[k];
                assert(far[j].0 >= 0);
            }
        }
        if overlapping(m.0, m.1, near) {
            let j = choose|j: int|
                0 <= j < near.len() && (#[trigger] near[j]).0 < m.1 && near[j].1 > m.0;
            assert(near.contains(near[j]));
            assert(all.contains(near[j]));
            let k = choose|k: int| 0 <= k < all.len() && all[k] == near[j];
            assert(all[k].0 < m.1 && all[k].1 > m.0);
        }
    }
    lemma_taken_same(a, all, near);
    assert forall|i: int| 0 <= i < fb.len() implies overlapping((#[trigger] fb[i]).0, fb[i].1, all)
        == overlapping(fb[i].0, fb[i].1, ff) by {
        let m = fb[i];
        assert(b[i].0 >= 0);
        if overlapping(m.0, m.1, all) {
            let k = choose|k: int|
                0 <= k < all.len() && (#[trigger] all[k]).0 < m.1 && all[k].1 > m.0;
            assert(all.contains(all[k]));
            if near.contains(all[k]) {
                let j = choose|j: int| 0 <= j < near.len() && near[j] == all[k];
                assert(near[j].1 <= n);
            } else {
                let j = choose|j: int| 0 <= j < ff.len() && ff[j] == all[k];
                assert(ff[j].0 < m.1 && ff[j].1 > m.0);
            }
        }
        if overlapping(m.0, m.1, ff) {
            let j = choose|j: int|
                0 <= j < ff.len() && (#[trigger] ff[j]).0 < m.1 && ff[j].1 > m.0;
            assert(ff.contains(ff[j]));
            assert(all.contains(ff[j]));
            let k = choose|k: int| 0 <= k < all.len() && all[k] == ff[j];
            assert(all[k].0 < m.1 && all[k].1 > m.0);
        }
    }
    lemma_taken_same(fb, all, ff);
    lemma_taken_moved(b, far, n);
}

proof fn lemma_concat_contains<A>(v: Seq<A>, w: Seq<A>, x: A)
    ensures
        (v + w).contains(x) <==> v.contains(x) || w.contains(x),
{
    let all = v + w;
    if v.contains(x) {
        let i = choose|i: int| 0 <= i < v.len() && v[i] == x;
        assert(all[i] == x);
    }
    if w.contains(x) {
        let i = choose|i: int| 0 <= i < w.len() && w[i] == x;
        assert(all[v.len() + i] == x);
    }
    if all.contains(x) {
        let i = choose|i: int| 0 <= i < all.len() && all[i] == x;
        if i < v.len() {
            assert(v[i] == x);
        } else {
            assert(w[i - v.len()] == x);
        }
    }
}

proof fn lemma_taken_bounds(
    v: Seq<(int, int, Seq<char>)>,
    occupied: Seq<(int, int, Seq<char>)>,
    n: int,
)
    ensures
        within(v, n) ==> within(taken_of(v, occupied), n),
        from_zero(v) ==> from_zero(taken_of(v, occupied)),
{
    lemma_taken_of(v, occupied);
    let t = taken_of(v, occupied);
    assert forall|i: int| 0 <= i < t.len() implies v.contains(#[trigger] t[i]) by {}
    if within(v, n) {
        assert forall|i: int| 0 <= i < t.len() implies 0 <= (#[trigger] t[i]).0 <= t[i].1
            <= n by {
            let j = choose|j: int| 0 <= j < v.len() && v[j] == t[i];
            assert(0 <= v[j].0 <= v[j].1 <= n);
        }
    }
    if from_zero(v) {
        assert forall|i: int| 0 <= i < t.len() implies 0 <= (#[trigger] t[i]).0 <= t[i].1 by {
            let j = choose|j: int| 0 <= j < v.len() && v[j] == t[i];
            assert(0 <= v[j].0 <= v[j].1);
        }
    }
}

/// Where no match runs over the cut, the candidates of a text in two parts are those of
/// either part.
#[verifier::rlimit(40)]
pub proof fn lemma_candidates_in_parts(
    ua: Seq<(int, int, Seq<char>)>,
    ub: Seq<(int, int, Seq<char>)>,
    pa: Seq<Seq<(int, int, Seq<char>)>>,
    pb: Seq<Seq<(int, int, Seq<char>)>>,
    n: int,
)
    requires
        pa.len() == pb.len(),
        within(ua, n),
        from_zero(ub),
        forall|k: int| 0 <= k < pa.len() ==> within(#[trigger] pa[k], n),
        forall|k: int| 0 <= k < pb.len() ==> from_zero(#[trigger] pb[k]),
    ensures
        within(occupied_after(ua, pa), n),
        from_zero(occupied_after(ub, pb)),
        forall|m: (int, int, Seq<char>)| #[trigger]
            occupied_after(ua + moved(ub, n), both_parts(pa, pb, n)).contains(m)
                <==> occupied_after(ua, pa).contains(m) || moved(
                occupied_after(ub, pb),
                n,
            ).contains(m),
        forall|x: Seq<char>| #[trigger]
            candidates(ua + moved(ub, n), both_parts(pa, pb, n)).contains(x) <==> candidates(
                ua,
                pa,
            ).contains(x) || candidates(ub, pb).contains(x),
    decreases pa.len(),
{
    let u = ua + moved(ub, n);
    let p = both_parts(pa, pb, n);
    if pa.len() == 0 {
        let f = |m: (int, int, Seq<char>)| clean_token(m.2);
        let (tu, ta, tb) = (u.map_values(f), ua.map_values(f), ub.map_values(f));
        assert(tu =~= ta + tb);
        lemma_all_added(Seq::empty(), nonempty(tu));
        lemma_all_added(Seq::empty(), nonempty(ta));
        lemma_all_added(Seq::empty(), nonempty(tb));
        lemma_nonempty(tu);
        lemma_nonempty(ta);
        lemma_nonempty(tb);
        assert forall|x: Seq<char>| #[trigger]
            candidates(u, p).contains(x) <==> candidates(ua, pa).contains(x) || candidates(
                ub,
                pb,
            ).contains(x) by {
            lemma_concat_contains(ta, tb, x);
        }
        assert forall|m: (int, int, Seq<char>)| #[trigger]
            occupied_after(u, p).contains(m) <==> ua.contains(m) || moved(ub, n).contains(m) by {
            lemma_concat_contains(ua, moved(ub, n), m);
        }
    } else {
        let (qa, qb) = (pa.drop_last(), pb.drop_last());
        let (a, b) = (pa.last(), pb.last());
        assert forall|k: int| 0 <= k < qa.len() implies within(#[trigger] qa[k], n) by {
            assert(qa[k] == pa[k]);
        }
        assert forall|k: int| 0 <= k < qb.len() implies from_zero(#[trigger] qb[k]) by {
            assert(qb[k] == pb[k]);
        }
        assert(a == pa[pa.len() - 1] && b == pb[pb.len() - 1]);
        lemma_candidates_in_parts(ua, ub, qa, qb, n);
        assert(p.drop_last() =~= both_parts(qa, qb, n));
        assert(p.last() == a + moved(b, n));
        let near = occupied_after(ua, qa);
        let far = occupied_after(ub, qb);
        let all = occupied_after(u, p.drop_last());
        lemma_taken_in_parts(a, b, near, far, all, n);
        let (ta, tb) = (taken_of(a, near), taken_of(b, far));
        lemma_taken_bounds(a, near, n);
        lemma_taken_bounds(b, far, n);
        let t = ta + moved(tb, n);
        assert(moved(far + tb, n) =~= moved(far, n) + moved(tb, n));
        assert forall|m: (int, int, Seq<char>)| #[trigger]
            occupied_after(u, p).contains(m) <==> occupied_after(ua, pa).contains(m) || moved(
                occupied_after(ub, pb),
                n,
            ).contains(m) by {
            lemma_concat_contains(all, t, m);
            lemma_concat_contains(ta, moved(tb, n), m);
            lemma_concat_contains(near, ta, m);
            lemma_concat_contains(moved(far, n), moved(tb, n), m);
            assert(all.contains(m) <==> near.contains(m) || moved(far, n).contains(m));
        }
        let f = |m: (int, int, Seq<char>)| candidate(m.2);
        assert(t.map_values(f) =~= ta.map_values(f) + tb.map_values(f));
        lemma_all_added(candidates(u, p.drop_last()), t.map_values(f));
        lemma_all_added(candidates(ua, qa), ta.map_values(f));
        lemma_all_added(candidates(ub, qb), tb.map_values(f));
        assert forall|x: Seq<char>| #[trigger]
            candidates(u, p).contains(x) <==> candidates(ua, pa).contains(x) || candidates(
                ub,
                pb,
            ).contains(x) by {
            lemma_concat_contains(ta.map_values(f), tb.map_values(f), x);
            assert(candidates(u, p.drop_last()).contains(x) <==> candidates(ua, qa).contains(x)
                || candidates(ub, qb).contains(x));
        }
    }
}

// ---------------------------------------------------------------------------
// What becomes a candidate

/// The items of a list that are not empty are all of those, in their order.
pub proof fn lemma_nonempty_items(v: Seq<Seq<char>>, x: Seq<char>)
    ensures
        nonempty(v).contains(x) <==> x.len() > 0 && v.contains(x),
        nonempty(v).len() <= v.len(),
    decreases v.len(),
{
    if v.len() > 0 {
        let w = v.drop_last();
        let y = v[v.len() - 1];
        lemma_nonempty_items(w, x);
        assert(v =~= w.push(y));
        lemma_push_contains(w, y, x);
        lemma_push_contains(nonempty(w), y, x);
    }
}

/// Of lines that each hold one URL or host, exactly the tokens become candidates that are
/// left of a line without what clings to it.
pub proof fn law_every_line_is_a_candidate(v: Seq<Seq<char>>, x: Seq<char>)
    ensures
        line_candidates(v).contains(x) <==> x.len() > 0 && exists|i: int|
            0 <= i < v.len() && clean_token(#[trigger] v[i]) == x,
{
    let tokens = v.map_values(|l: Seq<char>| clean_token(l));
    lemma_all_added(Seq::empty(), nonempty(tokens));
    lemma_nonempty_items(tokens, x);
    if tokens.contains(x) {
        let i = choose|i: int| 0 <= i < tokens.len() && tokens[i] == x;
        assert(clean_token(v[i]) == x);
    }
    if exists|i: int| 0 <= i < v.len() && clean_token(#[trigger] v[i]) == x {
        let i = choose|i: int| 0 <= i < v.len() && clean_token(#[trigger] v[i]) == x;
        assert(tokens[i] == x);
    }
    assert(!Seq::<Seq<char>>::empty().contains(x));
}

/// Whitespace and then punctuation around a token are cut off.
pub proof fn law_punctuation_is_cut_off(
    a: Seq<char>,
    b: Seq<char>,
    t: Seq<char>,
    c: Seq<char>,
    d: Seq<char>,
)
    requires
        has_only(a, CharClass::Whitespace),
        has_only(b, CharClass::TokenEdge),
        has_only(c, CharClass::TokenEdge),
        has_only(d, CharClass::Whitespace),
        t.len() > 0,
        !CharClass::TokenEdge.has(t[0]),
        !CharClass::TokenEdge.has(t.last()),
        !CharClass::Whitespace.has(t[0]),
        !CharClass::Whitespace.has(t.last()),
    ensures
        clean_token(a + (b + t + c) + d) == t,
{
    let m = b + t + c;
    assert(m.len() > 0);
    assert(!CharClass::Whitespace.has(m[0])) by {
        if b.len() > 0 {
            assert(m[0] == b[0]);
            assert(CharClass::TokenEdge.has(b[0]));
        } else {
            assert(m[0] == t[0]);
        }
    }
    assert(!CharClass::Whitespace.has(m.last())) by {
        if c.len() > 0 {
            assert(m.last() == c[c.len() - 1]);
            assert(CharClass::TokenEdge.has(c[c.len() - 1]));
        } else {
            assert(m.last() == t[t.len() - 1]);
        }
    }
    crate::text::law_trimming_undoes_padding(a, m, d, CharClass::Whitespace);
    crate::text::law_trimming_undoes_padding(b, t, c, CharClass::TokenEdge);
}

proof fn lemma_taken_items(
    v: Seq<(int, int, Seq<char>)>,
    occupied: Seq<(int, int, Seq<char>)>,
    m: (int, int, Seq<char>),
)
    ensures
        taken_of(v, occupied).contains(m) <==> v.contains(m) && taken(m, occupied),
    decreases v.len(),
{
    if v.len() > 0 {
        let w = v.drop_last();
        let y = v[v.len() - 1];
        lemma_taken_items(w, occupied, m);
        assert(v =~= w.push(y));
        lemma_push_contains(w, y, m);
        lemma_push_contains(taken_of(w, occupied), y, m);
    }
}

/// Which matches become candidates: what is left of a URL does, and so does what is left of
/// any other match exactly if it overlaps neither a URL nor a match of an earlier pattern
/// that did. Nothing else does.
pub proof fn law_matches_become_candidates(
    urls: Seq<(int, int, Seq<char>)>,
    passes: Seq<Seq<(int, int, Seq<char>)>>,
    x: Seq<char>,
)
    ensures
        candidates(urls, passes).contains(x) <==> {
            ||| x.len() > 0 && exists|i: int|
                0 <= i < urls.len() && clean_token((#[trigger] urls[i]).2) == x
            ||| exists|k: int, m: (int, int, Seq<char>)|
                0 <= k < passes.len() && #[trigger] passes[k].contains(m) && candidate(m.2) == x
                    && x.len() > 0 && clean_token(m.2).len() > 0 && !overlapping(
                    m.0,
                    m.1,
                    occupied_after(urls, passes.take(k)),
                )
        },
    decreases passes.len(),
{
    if passes.len() == 0 {
        let tokens = urls.map_values(|m: (int, int, Seq<char>)| clean_token(m.2));
        lemma_all_added(Seq::empty(), nonempty(tokens));
        lemma_nonempty_items(tokens, x);
        assert(!Seq::<Seq<char>>::empty().contains(x));
        if tokens.contains(x) {
            let i = choose|i: int| 0 <= i < tokens.len() && tokens[i] == x;
            assert(clean_token(urls[i].2) == x);
        }
        if exists|i: int| 0 <= i < urls.len() && clean_token((#[trigger] urls[i]).2) == x {
            let i = choose|i: int| 0 <= i < urls.len() && clean_token((#[trigger] urls[i]).2) == x;
            assert(tokens[i] == x);
        }
    } else {
        let rest = passes.drop_last();
        let n = passes.len() - 1;
        let last = passes[n];
        let occupied = occupied_after(urls, rest);
        law_matches_become_candidates(urls, rest, x);
        assert(passes.take(n) =~= rest);
        let found = taken_of(last, occupied);
        let new = found.map_values(|m: (int, int, Seq<char>)| candidate(m.2));
        lemma_all_added(candidates(urls, rest), new);
        if new.contains(x) {
            let i = choose|i: int| 0 <= i < new.len() && new[i] == x;
            let m = found[i];
            assert(found.contains(m));
            lemma_taken_items(last, occupied, m);
            assert(passes[n].contains(m));
        }
        if exists|k: int, m: (int, int, Seq<char>)|
            0 <= k < rest.len() && #[trigger] rest[k].contains(m) && candidate(m.2) == x && x.len()
                > 0 && clean_token(m.2).len() > 0 && !overlapping(
                m.0,
                m.1,
                occupied_after(urls, rest.take(k)),
            ) {
            let (k, m) = choose|k: int, m: (int, int, Seq<char>)|
                0 <= k < rest.len() && #[trigger] rest[k].contains(m) && candidate(m.2) == x
                    && x.len() > 0 && clean_token(m.2).len() > 0 && !overlapping(
                    m.0,
                    m.1,
                    occupied_after(urls, rest.take(k)),
                );
            assert(rest.take(k) =~= passes.take(k));
            assert(passes[k].contains(m));
        }
        if exists|k: int, m: (int, int, Seq<char>)|
            0 <= k < passes.len() && #[trigger] passes[k].contains(m) && candidate(m.2) == x
                && x.len() > 0 && clean_token(m.2).len() > 0 && !overlapping(
                m.0,
                m.1,
                occupied_after(urls, passes.take(k)),
            ) {
            let (k, m) = choose|k: int, m: (int, int, Seq<char>)|
                0 <= k < passes.len() && #[trigger] passes[k].contains(m) && candidate(m.2) == x
                    && x.len() > 0 && clean_token(m.2).len() > 0 && !overlapping(
                    m.0,
                    m.1,
                    occupied_after(urls, passes.take(k)),
                );
            if k < n {
                assert(rest.take(k) =~= passes.take(k));
                assert(rest[k].contains(m));
            } else {
                lemma_taken_items(last, occupied, m);
                let i = choose|i: int| 0 <= i < found.len() && found[i] == m;
                assert(new[i] == x);
            }
        }
    }
}

/// Two ranges overlap unless one ends where the other starts or before; ranges that only
/// touch do not.
pub proof fn law_ranges_that_touch_do_not_overlap(start: int, end: int, m: (int, int, Seq<char>))
    ensures
        overlapping(start, end, seq![m]) <==> !(end <= m.0 || m.1 <= start),
        !overlapping(start, end, Seq::empty()),
{
    let v = seq![m];
    assert(v[0] == m);
}

/// The label of a certificate name is no part of it, in capitals or not.
pub proof fn law_certificate_labels_are_cut(x: Seq<char>)
    requires
        !("DNS:"@.is_prefix_of(x)),
        !("dns:"@.is_prefix_of(x)),
    ensures
        without_label("DNS:"@ + x) == x,
        without_label("dns:"@ + x) == x,
        without_label(x) == x,
{
    reveal_strlit("DNS:");
    reveal_strlit("dns:");
    let (a, b) = ("DNS:"@ + x, "dns:"@ + x);
    assert(a.subrange(0, 4) =~= "DNS:"@ && a.skip(4) =~= x);
    assert(b.subrange(0, 4) =~= "dns:"@ && b.skip(4) =~= x);
    if "DNS:"@.is_prefix_of(b) {
        assert(b.subrange(0, 4)[0] == b[0]);
        assert("DNS:"@[0] == 'D');
    }
}

/// The names in a line of certificate names are what stands between commas and whitespace,
/// without its label; nothing else is a name.
pub proof fn law_certificate_names_are_listed(line: Seq<char>, x: Seq<char>)
    ensures
        line_names(line).contains(x) <==> x.len() > 0 && exists|i: int|
            0 <= i < pieces(line, CharClass::ListSeparator).len() && (#[trigger] pieces(
                line,
                CharClass::ListSeparator,
            )[i]).len() > 0 && without_label(pieces(line, CharClass::ListSeparator)[i]) == x,
{
    let p = pieces(line, CharClass::ListSeparator);
    let q = nonempty(p);
    let names = q.map_values(|p: Seq<char>| without_label(p));
    lemma_nonempty_items(names, x);
    if names.contains(x) {
        let i = choose|i: int| 0 <= i < names.len() && names[i] == x;
        assert(q.contains(q[i]));
        lemma_nonempty_items(p, q[i]);
        let j = choose|j: int| 0 <= j < p.len() && p[j] == q[i];
        assert(p[j].len() > 0);
    }
    if exists|i: int| 0 <= i < p.len() && (#[trigger] p[i]).len() > 0 && without_label(p[i]) == x {
        let i = choose|i: int|
            0 <= i < p.len() && (#[trigger] p[i]).len() > 0 && without_label(p[i]) == x;
        lemma_nonempty_items(p, p[i]);
        assert(p.contains(p[i]));
        let j = choose|j: int| 0 <= j < q.len() && q[j] == p[i];
        assert(names[j] == x);
    }
}

/// A certificate line gives exactly the candidates that one of its names gives.
pub proof fn law_certificate_candidates_come_from_names(v: Seq<Seq<char>>, x: Seq<char>)
    ensures
        san_candidates(v).contains(x) <==> exists|i: int, n: Seq<char>|
            0 <= i < v.len() && #[trigger] line_names(v[i]).contains(n) && text_candidates(
                n,
            ).contains(x),
{
    lemma_texts_candidates(san_names(v), x);
    lemma_san_names(v);
    if exists|j: int|
        0 <= j < san_names(v).len() && text_candidates(#[trigger] san_names(v)[j]).contains(x) {
        let j = choose|j: int|
            0 <= j < san_names(v).len() && text_candidates(#[trigger] san_names(v)[j]).contains(x);
        let n = san_names(v)[j];
        assert(san_names(v).contains(n));
        let i = choose|i: int| 0 <= i < v.len() && line_names(#[trigger] v[i]).contains(n);
        assert(line_names(v[i]).contains(n) && text_candidates(n).contains(x));
    }
    if exists|i: int, n: Seq<char>|
        0 <= i < v.len() && #[trigger] line_names(v[i]).contains(n) && text_candidates(n).contains(
            x,
        ) {
        let (i, n) = choose|i: int, n: Seq<char>|
            0 <= i < v.len() && #[trigger] line_names(v[i]).contains(n) && text_candidates(
                n,
            ).contains(x);
        assert(line_names(v[i]).contains(n));
        assert(san_names(v).contains(n));
        let j = choose|j: int| 0 <= j < san_names(v).len() && san_names(v)[j] == n;
        assert(text_candidates(san_names(v)[j]).contains(x));
    }
}

proof fn lemma_san_names(v: Seq<Seq<char>>)
    ensures
        forall|n: Seq<char>| #[trigger]
            san_names(v).contains(n) <==> exists|i: int|
                0 <= i < v.len() && line_names(#[trigger] v[i]).contains(n),
    decreases v.len(),
{
    if v.len() > 0 {
        let w = v.drop_last();
        let last = v[v.len() - 1];
        lemma_san_names(w);
        assert forall|n: Seq<char>| #[trigger] san_names(v).contains(n) <==> exists|i: int|
            0 <= i < v.len() && line_names(#[trigger] v[i]).contains(n) by {
            lemma_concat_contains(san_names(w), line_names(last), n);
            if exists|i: int| 0 <= i < w.len() && line_names(#[trigger] w[i]).contains(n) {
                let i = choose|i: int| 0 <= i < w.len() && line_names(#[trigger] w[i]).contains(n);
                assert(v[i] == w[i]);
            }
            if exists|i: int| 0 <= i < v.len() && line_names(#[trigger] v[i]).contains(n) {
                let i = choose|i: int| 0 <= i < v.len() && line_names(#[trigger] v[i]).contains(n);
                if i < w.len() {
                    assert(w[i] == v[i]);
                }
            }
            assert(v[v.len() - 1] == last);
        }
    }
}

proof fn lemma_texts_candidates(v: Seq<Seq<char>>, x: Seq<char>)
    ensures
        texts_candidates(v).contains(x) <==> exists|j: int|
            0 <= j < v.len() && text_candidates(#[trigger] v[j]).contains(x),
    decreases v.len(),
{
    if v.len() > 0 {
        let w = v.drop_last();
        lemma_texts_candidates(w, x);
        lemma_all_added(texts_candidates(w), text_candidates(v.last()));
        if exists|j: int| 0 <= j < w.len() && text_candidates(#[trigger] w[j]).contains(x) {
            let j = choose|j: int| 0 <= j < w.len() && text_candidates(#[trigger] w[j]).contains(x);
            assert(v[j] == w[j]);
        }
        if exists|j: int| 0 <= j < v.len() && text_candidates(#[trigger] v[j]).contains(x) {
            let j = choose|j: int| 0 <= j < v.len() && text_candidates(#[trigger] v[j]).contains(x);
            if j < w.len() {
                assert(w[j] == v[j]);
            }
        }
        assert(v[v.len() - 1] == v.last());
    }
}

/// The candidates of strings are exactly those that one of the strings gives: a URL gives
/// itself, and any other string what is found in it.
pub proof fn law_string_candidates_come_from_strings(v: Seq<Seq<char>>, x: Seq<char>)
    ensures
        strings_candidates(v).contains(x) <==> exists|j: int|
            0 <= j < v.len() && (if url_like(#[trigger] v[j]) {
                x.len() > 0 && clean_token(v[j]) == x
            } else {
                text_candidates(v[j]).contains(x)
            }),
    decreases v.len(),
{
    if v.len() > 0 {
        let w = v.drop_last();
        let last = v[v.len() - 1];
        law_string_candidates_come_from_strings(w, x);
        lemma_all_added(strings_candidates(w), string_candidates(last));
        law_every_line_is_a_candidate(seq![last], x);
        assert(seq![last][0] == last);
        assert(string_candidates(last).contains(x) <==> if url_like(last) {
            x.len() > 0 && clean_token(last) == x
        } else {
            text_candidates(last).contains(x)
        });
        if strings_candidates(w).contains(x) {
            let j = choose|j: int|
                0 <= j < w.len() && (if url_like(#[trigger] w[j]) {
                    x.len() > 0 && clean_token(w[j]) == x
                } else {
                    text_candidates(w[j]).contains(x)
                });
            assert(v[j] == w[j]);
        }
        if exists|j: int|
            0 <= j < v.len() && (if url_like(#[trigger] v[j]) {
                x.len() > 0 && clean_token(v[j]) == x
            } else {
                text_candidates(v[j]).contains(x)
            }) {
            let j = choose|j: int|
                0 <= j < v.len() && (if url_like(#[trigger] v[j]) {
                    x.len() > 0 && clean_token(v[j]) == x
                } else {
                    text_candidates(v[j]).contains(x)
                });
            if j < w.len() {
                assert(w[j] == v[j]);
            }
        }
    }
}

/// Whether a string stands somewhere in a JSON value.
pub open spec fn stands_in(s: Seq<char>, tree: JsonTree) -> bool
    decreases tree,
{
    match tree {
        JsonTree::Text(t) => s == t,
        JsonTree::List(items) => exists|i: int|
            0 <= i < items.len() && stands_in(s, #[trigger] items[i]),
        JsonTree::Object(m) => exists|i: int|
            0 <= i < m.len() && stands_in(s, (#[trigger] m[i]).1),
        JsonTree::Other => false,
    }
}

/// Without keys exactly the strings that stand somewhere in a value are found, however deep.
/// With keys exactly the strings directly under one of them in an object are.
pub proof fn law_json_strings_are_found(tree: JsonTree, fields: Seq<Seq<char>>, s: Seq<char>)
    ensures
        fields.len() == 0 ==> (strings_in(tree, fields).contains(s) <==> stands_in(s, tree)),
        fields.len() > 0 ==> (strings_in(tree, fields).contains(s) <==> (tree matches JsonTree::Object(
            m,
        ) && exists|i: int|
            0 <= i < fields.len() && member(m, #[trigger] fields[i]) == Some(JsonTree::Text(s)))),
    decreases tree, 0int, 0int,
{
    if fields.len() > 0 {
        if let JsonTree::Object(m) = tree {
            lemma_field_strings(m, fields, s);
        }
    } else {
        match tree {
            JsonTree::Text(t) => {
                assert(seq![t][0] == t);
            },
            JsonTree::List(items) => {
                lemma_list_strings(items, fields, s, items.len() as int);
                reveal_with_fuel(stands_in, 2);
                if exists|i: int| 0 <= i < items.len() && #[trigger] stands_in(s, items[i]) {
                    let i = choose|i: int| 0 <= i < items.len() && #[trigger] stands_in(s, items[i]);
                    assert(stands_in(s, items[i]));
                    assert(stands_in(s, tree));
                }
                if stands_in(s, tree) {
                    let i = choose|i: int| 0 <= i < items.len() && stands_in(s, #[trigger] items[i]);
                    assert(stands_in(s, items[i]));
                }
            },
            JsonTree::Object(m) => {
                lemma_member_strings(m, fields, s, m.len() as int);
                reveal_with_fuel(stands_in, 2);
                if exists|i: int| 0 <= i < m.len() && #[trigger] stands_in(s, m[i].1) {
                    let i = choose|i: int| 0 <= i < m.len() && #[trigger] stands_in(s, m[i].1);
                    assert(stands_in(s, m[i].1));
                    assert(stands_in(s, tree));
                }
                if stands_in(s, tree) {
                    let i = choose|i: int| 0 <= i < m.len() && stands_in(s, (#[trigger] m[i]).1);
                    assert(stands_in(s, m[i].1));
                }
            },
            JsonTree::Other => {},
        }
    }
}

proof fn lemma_list_strings(items: Seq<JsonTree>, fields: Seq<Seq<char>>, s: Seq<char>, n: int)
    requires
        fields.len() == 0,
        0 <= n <= items.len(),
    ensures
        strings_of_list(items, fields, n).contains(s) <==> exists|i: int|
            0 <= i < n && #[trigger] stands_in(s, items[i]),
    decreases items, 1int, n,
{
    if n > 0 {
        lemma_list_strings(items, fields, s, n - 1);
        law_json_strings_are_found(items[n - 1], fields, s);
        lemma_concat_contains(
            strings_of_list(items, fields, n - 1),
            strings_in(items[n - 1], fields),
            s,
        );
    }
}

proof fn lemma_member_strings(
    m: Seq<(Seq<char>, JsonTree)>,
    fields: Seq<Seq<char>>,
    s: Seq<char>,
    n: int,
)
    requires
        fields.len() == 0,
        0 <= n <= m.len(),
    ensures
        strings_of_members(m, fields, n).contains(s) <==> exists|i: int|
            0 <= i < n && #[trigger] stands_in(s, m[i].1),
    decreases m, 1int, n,
{
    if n > 0 {
        lemma_member_strings(m, fields, s, n - 1);
        law_json_strings_are_found(m[n - 1].1, fields, s);
        lemma_concat_contains(
            strings_of_members(m, fields, n - 1),
            strings_in(m[n - 1].1, fields),
            s,
        );
    }
}

proof fn lemma_field_strings(
    m: Seq<(Seq<char>, JsonTree)>,
    fields: Seq<Seq<char>>,
    s: Seq<char>,
)
    ensures
        field_strings(m, fields).contains(s) <==> exists|i: int|
            0 <= i < fields.len() && member(m, #[trigger] fields[i]) == Some(JsonTree::Text(s)),
    decreases fields.len(),
{
    if fields.len() > 0 {
        let w = fields.drop_last();
        let f = fields[fields.len() - 1];
        lemma_field_strings(m, w, s);
        if let Some(JsonTree::Text(t)) = member(m, f) {
            lemma_push_contains(field_strings(m, w), t, s);
        }
        if exists|i: int|
            0 <= i < w.len() && member(m, #[trigger] w[i]) == Some(JsonTree::Text(s)) {
            let i = choose|i: int|
                0 <= i < w.len() && member(m, #[trigger] w[i]) == Some(JsonTree::Text(s));
            assert(fields[i] == w[i]);
        }
        if exists|i: int|
            0 <= i < fields.len() && member(m, #[trigger] fields[i]) == Some(JsonTree::Text(s)) {
            let i = choose|i: int|
                0 <= i < fields.len() && member(m, #[trigger] fields[i]) == Some(
                    JsonTree::Text(s),
                );
            if i < w.len() {
                assert(w[i] == fields[i]);
            }
        }
    }
}

/// Of lines, exactly those that are JSON documents are searched; the others are skipped.
pub proof fn law_json_lines_are_searched(
    v: Seq<Seq<char>>,
    fields: Seq<Seq<char>>,
    n: int,
    s: Seq<char>,
)
    requires
        0 <= n <= v.len(),
    ensures
        line_strings(v, fields, n).contains(s) <==> exists|i: int|
            0 <= i < n && (json_document(trimmed(#[trigger] v[i], CharClass::Whitespace)) matches Some(
                tree,
            ) && trimmed(v[i], CharClass::Whitespace).len() > 0 && strings_in(
                tree,
                fields,
            ).contains(s)),
    decreases n,
{
    if n > 0 {
        law_json_lines_are_searched(v, fields, n - 1, s);
        let line = trimmed(v[n - 1], CharClass::Whitespace);
        assert(v[n - 1] == v[n - 1]);
        if let Some(tree) = json_document(line) {
            lemma_concat_contains(
                line_strings(v, fields, n - 1),
                strings_in(tree, fields),
                s,
            );
        }
    }
}

/// Of several members with one key the last one counts, and a key that no member has gives
/// nothing.
pub proof fn law_last_member_counts(m: Seq<(Seq<char>, JsonTree)>, key: Seq<char>, tree: JsonTree)
    ensures
        member(m.push((key, tree)), key) == Some(tree),
        forall|k: Seq<char>| k != key ==> #[trigger] member(m.push((key, tree)), k) == member(m, k),
        member(Seq::empty(), key) is None,
{
    assert(m.push((key, tree)).drop_last() =~= m);
}

/// A document is searched as a whole, a list at its top item by item, so that keys are looked
/// for in each of the items; only a text that is no document is searched line by line.
pub proof fn law_json_documents_are_searched(
    stream: Seq<char>,
    fields: Seq<Seq<char>>,
    s: Seq<char>,
)
    ensures
        ({
            let text = trimmed(stream, CharClass::Whitespace);
            let found = json_strings(stream, fields).contains(s);
            &&& text.len() == 0 ==> !found
            &&& text.len() > 0 ==> (json_document(text) matches Some(JsonTree::List(items)) ==> (
            found <==> exists|i: int|
                0 <= i < items.len() && strings_in(#[trigger] items[i], fields).contains(s)))
            &&& text.len() > 0 && json_document(text) is Some && !(json_document(text)->0 is List)
                ==> (found <==> strings_in(json_document(text)->0, fields).contains(s))
            &&& text.len() > 0 && json_document(text) is None ==> (found <==> exists|i: int|
                0 <= i < lines(stream).len() && (json_document(
                    trimmed(#[trigger] lines(stream)[i], CharClass::Whitespace),
                ) matches Some(tree) && trimmed(
                    lines(stream)[i],
                    CharClass::Whitespace,
                ).len() > 0 && strings_in(tree, fields).contains(s)))
        }),
{
    let text = trimmed(stream, CharClass::Whitespace);
    if let Some(JsonTree::List(items)) = json_document(text) {
        lemma_items_strings(items, fields, s, items.len() as int);
    }
    law_json_lines_are_searched(lines(stream), fields, lines(stream).len() as int, s);
}

proof fn lemma_items_strings(items: Seq<JsonTree>, fields: Seq<Seq<char>>, s: Seq<char>, n: int)
    requires
        0 <= n <= items.len(),
    ensures
        strings_of_list(items, fields, n).contains(s) <==> exists|i: int|
            0 <= i < n && strings_in(#[trigger] items[i], fields).contains(s),
    decreases n,
{
    if n > 0 {
        lemma_items_strings(items, fields, s, n - 1);
        assert(items[n - 1] == items[n - 1]);
        lemma_concat_contains(
            strings_of_list(items, fields, n - 1),
            strings_in(items[n - 1], fields),
            s,
        );
    }
}

/// A dot behind a token is kept, and of several dots one is; a hyphen or an underscore
/// around a token is cut off.
pub proof fn law_one_trailing_dot_is_kept(t: Seq<char>)
    requires
        t.len() > 0,
        is_letter(t[0]) || is_digit(t[0]),
        is_letter(t.last()) || is_digit(t.last()),
    ensures
        candidate(t.push('.')) == t.push('.'),
        candidate(t.push('.').push('.')) == t.push('.'),
        candidate(seq!['-'] + t + seq!['-']) == t,
        candidate(seq!['_'] + t + seq!['_']) == t,
{
    lemma_dotted_candidate(t.push('.'));
    lemma_dotted_candidate(t.push('.').push('.'));
    let a = t.push('.').push('.');
    assert(a[a.len() - 1] == '.' && a[a.len() - 2] == '.');
    assert(without_trailing(a, CharClass::Is('.')) == t) by {
        crate::text::law_trimming_undoes_padding(
            Seq::empty(),
            t,
            seq!['.', '.'],
            CharClass::Is('.'),
        );
        assert(t + seq!['.', '.'] =~= a);
    }
    let b = t.push('.');
    assert(b[b.len() - 2] == t[t.len() - 1]);
    assert(with_single_dot(b) == b);
    lemma_edge_candidate(t, '-');
    lemma_edge_candidate(t, '_');
}

proof fn lemma_dotted_candidate(t: Seq<char>)
    requires
        t.len() > 0,
        is_letter(t[0]) || is_digit(t[0]),
        t.last() == '.',
    ensures
        candidate(t) == with_single_dot(t),
{
    lemma_unchanged_by_trim(t, CharClass::Whitespace);
    lemma_unchanged_by_trim(t, CharClass::TokenEdge);
    assert(without_leading(t, CharClass::NotCandidateStart) =~= t);
    assert(without_trailing(t, CharClass::NotCandidateEnd) =~= t);
}

proof fn lemma_edge_candidate(t: Seq<char>, c: char)
    requires
        t.len() > 0,
        is_letter(t[0]) || is_digit(t[0]),
        is_letter(t.last()) || is_digit(t.last()),
        c == '-' || c == '_',
    ensures
        candidate(seq![c] + t + seq![c]) == t,
{
    let s = seq![c] + t + seq![c];
    assert(s[0] == c && s.last() == c);
    lemma_unchanged_by_trim(s, CharClass::Whitespace);
    lemma_unchanged_by_trim(s, CharClass::TokenEdge);
    let u = t + seq![c];
    crate::text::law_trimming_undoes_padding(
        seq![c],
        t,
        Seq::empty(),
        CharClass::NotCandidateStart,
    );
    assert(without_leading(s, CharClass::NotCandidateStart) == u) by {
        assert(crate::text::past_from(s, CharClass::NotCandidateStart, 1) == 1);
        assert(crate::text::past_from(s, CharClass::NotCandidateStart, 0) == 1);
        assert(s.subrange(1, s.len() as int) =~= u);
    }
    crate::text::law_trimming_undoes_padding(
        Seq::empty(),
        t,
        seq![c],
        CharClass::NotCandidateEnd,
    );
    assert(t[t.len() - 1] != '.');
}

/// A string is taken as a URL exactly if it begins with a scheme of the web or with two
/// slashes.
pub proof fn law_web_addresses_are_taken_whole(x: Seq<char>)
    requires
        x.len() > 0,
        !CharClass::Whitespace.has(x.last()),
    ensures
        url_like("http://"@ + x),
        url_like("https://"@ + x),
        url_like("//"@ + x),
        x[0] != '/' && x[0] != 'h' && !CharClass::Whitespace.has(x[0]) ==> !url_like(x),
{
    reveal_strlit("http://");
    reveal_strlit("https://");
    reveal_strlit("//");
    let (a, b, c) = ("http://"@ + x, "https://"@ + x, "//"@ + x);
    assert(a.last() == x.last() && b.last() == x.last() && c.last() == x.last());
    lemma_unchanged_by_trim(a, CharClass::Whitespace);
    lemma_unchanged_by_trim(b, CharClass::Whitespace);
    lemma_unchanged_by_trim(c, CharClass::Whitespace);
    assert(a.subrange(0, 7) =~= "http://"@);
    assert(b.subrange(0, 8) =~= "https://"@);
    assert(c.subrange(0, 2) =~= "//"@);
    if x[0] != '/' && x[0] != 'h' && !CharClass::Whitespace.has(x[0]) {
        lemma_unchanged_by_trim(x, CharClass::Whitespace);
        if "http://"@.is_prefix_of(x) {
            assert(x.subrange(0, 7)[0] == x[0]);
        }
        if "https://"@.is_prefix_of(x) {
            assert(x.subrange(0, 8)[0] == x[0]);
        }
        if "//"@.is_prefix_of(x) {
            assert(x.subrange(0, 2)[0] == x[0]);
        }
    }
}

} // verus!

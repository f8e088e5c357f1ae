//! The stages put together: extraction, classification, deduplication and scope.

use vstd::prelude::*;
use vstd::slice::slice_subrange;
use vstd::utf8::encode_utf8;

use crate::classify::{
    asset_of_input, classify_str, domain_base, law_kind_decides_fields, registrable_form,
};
use crate::dedupe::{dedupe, deduped, has_key, law_one_record_per_key};
use crate::extract::{
    both_parts, candidate, candidates, clean_token, cut_between_matches, from_json, from_san,
    from_texts, from_urls, from_zero, hosts_at, hosts_in, json_strings,
    law_every_line_is_a_candidate, lemma_candidates_in_parts, lemma_pieces_are_within,
    line_candidates, lines_apart, matches_lie_in, matches_together, moved, nonempty, occupied_after,
    put_together, san_candidates, strings_candidates, taken_of, text_candidates, urls_at, urls_in,
    within,
};
use crate::lists::{all_added, lemma_all_added, UniqueTexts};
use crate::model::{views, Asset, AssetKind, AssetView, ScopeStatus};
use crate::normalize::{lemma_raw_is_kept, normal_form};
use crate::psl::{registrable_part, SuffixList};
use crate::scope::{hits, scope_host, some_hit, RuleView, ScopeMatcher};
use crate::text::{
    char_texts, chars_of, index_from, lemma_index_from, lines, lines_of, string_of, texts,
    CharClass,
};

verus! {

/// How input is read.
#[derive(Debug, Clone, Copy, PartialEq, Eq, Structural)]
pub enum InputFormat {
    /// Dirty free text.
    Text,
    /// One URL or host per line.
    Urls,
    /// JSON or lines of JSON.
    Json,
    /// Lines of certificate names.
    San,
}

// ---------------------------------------------------------------------------
// Chunks

/// The place behind the `n`-th line feed from `i` on, or the end.
pub open spec fn after_lines(s: Seq<char>, i: int, n: nat) -> int
    decreases n,
{
    if n == 0 {
        i
    } else {
        let j = index_from(s, CharClass::Is('\n'), i);
        if j >= s.len() {
            s.len() as int
        } else {
            after_lines(s, j + 1, (n - 1) as nat)
        }
    }
}

proof fn lemma_after_lines(s: Seq<char>, i: int, n: nat)
    requires
        0 <= i <= s.len(),
    ensures
        i <= after_lines(s, i, n) <= s.len(),
        n > 0 && i < s.len() ==> i < after_lines(s, i, n),
        n > 0 && after_lines(s, i, n) < s.len() ==> s[after_lines(s, i, n) - 1] == '\n',
    decreases n,
{
    if n > 0 {
        lemma_index_from(s, CharClass::Is('\n'), i);
        let j = index_from(s, CharClass::Is('\n'), i);
        if j < s.len() {
            lemma_after_lines(s, j + 1, (n - 1) as nat);
        }
    }
}

/// The chunks of `n` lines each that a text from `i` on is made of; the last one may have
/// fewer.
pub open spec fn chunks_from(s: Seq<char>, i: int, n: nat) -> Seq<Seq<char>>
    decreases s.len() - i,
    via chunks_decreases
{
    if i < 0 || i >= s.len() || n == 0 {
        Seq::empty()
    } else {
        let e = after_lines(s, i, n);
        seq![s.subrange(i, e)] + chunks_from(s, e, n)
    }
}

#[via_fn]
proof fn chunks_decreases(s: Seq<char>, i: int, n: nat) {
    if 0 <= i < s.len() && n > 0 {
        lemma_after_lines(s, i, n);
    }
}

proof fn lemma_chunks_are_lossless(s: Seq<char>, i: int, n: nat)
    requires
        0 <= i <= s.len(),
        n > 0,
    ensures
        put_together(chunks_from(s, i, n)) == s.skip(i),
    decreases s.len() - i,
{
    let v = chunks_from(s, i, n);
    if i < s.len() {
        let e = after_lines(s, i, n);
        lemma_after_lines(s, i, n);
        lemma_chunks_are_lossless(s, e, n);
        assert(v.skip(1) =~= chunks_from(s, e, n));
        assert(s.subrange(i, e) + s.skip(e) =~= s.skip(i));
    } else {
        assert(s.skip(i) =~= Seq::empty());
    }
}

/// The lines of a chunk: as many as asked for, but at least 256.
pub open spec fn chunk_lines(chunk_size: usize) -> nat {
    if chunk_size >= 256 {
        chunk_size as nat
    } else {
        256
    }
}

/// The pieces in which a text is searched: the whole text with one thread or below 256 KiB,
/// else chunks of lines.
pub open spec fn search_chunks(text: Seq<char>, threads: usize, chunk_size: usize) -> Seq<
    Seq<char>,
> {
    if threads == 1 || encode_utf8(text).len() < 262144 {
        seq![text]
    } else {
        chunks_from(text, 0, chunk_lines(chunk_size))
    }
}

/// Nothing of a text is lost or moved when it is cut into pieces.
pub proof fn law_chunks_are_lossless(text: Seq<char>, threads: usize, chunk_size: usize)
    ensures
        put_together(search_chunks(text, threads, chunk_size)) == text,
{
    if threads == 1 || encode_utf8(text).len() < 262144 {
        let v = seq![text];
        assert(v.skip(1) =~= Seq::empty());
        assert(put_together(v.skip(1)) =~= Seq::empty());
        assert(text + Seq::empty() =~= text);
    } else {
        lemma_chunks_are_lossless(text, 0, chunk_lines(chunk_size));
        assert(text.skip(0) =~= text);
    }
}

/// Every piece but the last ends with a line feed.
pub proof fn law_chunks_end_with_lines(text: Seq<char>, i: int, n: nat, k: int)
    requires
        0 <= i <= text.len(),
        n > 0,
        0 <= k < chunks_from(text, i, n).len() - 1,
    ensures
        chunks_from(text, i, n)[k].len() > 0,
        chunks_from(text, i, n)[k].last() == '\n',
    decreases text.len() - i,
{
    let e = after_lines(text, i, n);
    lemma_after_lines(text, i, n);
    let v = chunks_from(text, i, n);
    let w = chunks_from(text, e, n);
    if k > 0 {
        assert(v[k] == w[k - 1]);
        law_chunks_end_with_lines(text, e, n, k - 1);
    } else {
        assert(w.len() > 0);
        assert(e < text.len());
    }
}

fn line_end(s: &[char], start: usize, n: usize) -> (r: usize)
    requires
        start <= s@.len(),
    ensures
        r == after_lines(s@, start as int, n as nat),
        start <= r <= s@.len(),
{
    proof {
        lemma_after_lines(s@, start as int, n as nat);
    }
    let len: usize = s.len();
    let mut i: usize = start;
    let mut left: usize = n;
    while left > 0 && i < len
        invariant
            len == s@.len(),
            start <= i <= len,
            left <= n,
            after_lines(s@, start as int, n as nat) == after_lines(s@, i as int, left as nat),
        decreases len - i,
    {
        proof {
            lemma_after_lines(s@, i as int, left as nat);
        }
        if s[i] == '\n' {
            left -= 1;
        } else {
            assert(index_from(s@, CharClass::Is('\n'), i as int) == index_from(
                s@,
                CharClass::Is('\n'),
                i + 1,
            ));
        }
        i += 1;
    }
    i
}

/// Cuts a text into the pieces in which it is searched.
pub fn cut_text(text: &str, threads: usize, chunk_size: usize) -> (r: Vec<String>)
    ensures
        texts(r@) == search_chunks(text@, threads, chunk_size),
{
    let mut out: Vec<String> = Vec::new();
    if threads == 1 || text.as_bytes().len() < 262144 {
        out.push(text.to_string());
        assert(texts(out@) =~= seq![text@]);
        return out;
    }
    let chars = chars_of(text);
    let n: usize = if chunk_size >= 256 {
        chunk_size
    } else {
        256
    };
    let ghost s = text@;
    let mut i: usize = 0;
    assert(texts(out@) + chunks_from(s, 0, n as nat) =~= chunks_from(s, 0, n as nat));
    while i < chars.len()
        invariant
            s == chars@,
            i <= s.len(),
            n >= 256,
            chunks_from(s, 0, n as nat) == texts(out@) + chunks_from(s, i as int, n as nat),
        decreases s.len() - i,
    {
        let ghost before = texts(out@);
        let e: usize = line_end(chars.as_slice(), i, n);
        proof {
            lemma_after_lines(s, i as int, n as nat);
        }
        out.push(string_of(slice_subrange(chars.as_slice(), i, e)));
        assert(texts(out@) =~= before.push(s.subrange(i as int, e as int)));
        assert(before + chunks_from(s, i as int, n as nat) =~= texts(out@) + chunks_from(
            s,
            e as int,
            n as nat,
        ));
        i = e;
    }
    assert(chunks_from(s, i as int, n as nat) =~= Seq::empty());
    assert(texts(out@) =~= chunks_from(s, 0, n as nat));
    out
}

// ---------------------------------------------------------------------------
// Candidates

/// Lists put together, each item once.
pub open spec fn united_lists(v: Seq<Seq<Seq<char>>>) -> Seq<Seq<char>>
    decreases v.len(),
{
    if v.len() == 0 {
        Seq::empty()
    } else {
        all_added(united_lists(v.drop_last()), v.last())
    }
}

/// The texts of lists.
pub open spec fn list_texts(v: Seq<Vec<String>>) -> Seq<Seq<Seq<char>>> {
    v.map_values(|l: Vec<String>| texts(l@))
}

/// Puts lists together, each item once.
pub fn unite_lists(parts: &Vec<Vec<String>>) -> (r: Vec<String>)
    ensures
        texts(r@) == united_lists(list_texts(parts@)),
        texts(r@).no_duplicates(),
{
    let ghost all = list_texts(parts@);
    let mut out = UniqueTexts::new();
    assert(all.take(0) =~= Seq::empty());
    let mut i: usize = 0;
    while i < parts.len()
        invariant
            i <= parts@.len(),
            all == list_texts(parts@),
            out.wf(),
            out@ == united_lists(all.take(i as int)),
        decreases parts.len() - i,
    {
        assert(all.take(i + 1).drop_last() =~= all.take(i as int));
        assert(all.take(i + 1).last() == texts(parts@[i as int]@));
        out.add_all(&parts[i]);
        i += 1;
    }
    assert(all.take(i as int) =~= all);
    out.into_vec()
}

proof fn lemma_no_matches(passes: Seq<Seq<(int, int, Seq<char>)>>)
    requires
        forall|k: int| 0 <= k < passes.len() ==> (#[trigger] passes[k]).len() == 0,
    ensures
        candidates(Seq::empty(), passes) == Seq::<Seq<char>>::empty(),
    decreases passes.len(),
{
    let none = Seq::<(int, int, Seq<char>)>::empty();
    if passes.len() == 0 {
        let f = |m: (int, int, Seq<char>)| clean_token(m.2);
        assert(none.map_values(f) =~= Seq::empty());
        assert(nonempty(none.map_values(f)) =~= Seq::empty());
    } else {
        let rest = passes.drop_last();
        assert forall|k: int| 0 <= k < rest.len() implies (#[trigger] rest[k]).len() == 0 by {
            assert(rest[k] == passes[k]);
        }
        lemma_no_matches(rest);
        assert(passes[passes.len() - 1].len() == 0);
        let f = |m: (int, int, Seq<char>)| candidate(m.2);
        assert(taken_of(passes.last(), occupied_after(none, rest)).map_values(f) =~= Seq::empty());
    }
}

/// Whether a candidate is found in one of several texts.
pub open spec fn found_in_some(v: Seq<Seq<char>>, x: Seq<char>) -> bool {
    exists|i: int| 0 <= i < v.len() && text_candidates(#[trigger] v[i]).contains(x)
}

proof fn lemma_matches_together(
    v: Seq<Seq<char>>,
    found: spec_fn(Seq<char>) -> Seq<(int, int, Seq<char>)>,
)
    requires
        v.len() > 0,
    ensures
        matches_together(v, found) == found(v[0]) + moved(
            matches_together(v.skip(1), found),
            encode_utf8(v[0]).len() as int,
        ),
{
    assert(v.map_values(found).skip(1) =~= v.skip(1).map_values(found));
}

#[verifier::rlimit(40)]
proof fn lemma_matches_in_pieces(v: Seq<Seq<char>>)
    requires
        forall|i: int| 0 <= i < v.len() ==> matches_lie_in(#[trigger] v[i]),
    ensures
        ({
            let urls = matches_together(v, urls_at());
            let hosts = Seq::new(4, |k: int| matches_together(v, hosts_at(k)));
            &&& from_zero(urls)
            &&& forall|k: int| 0 <= k < 4 ==> from_zero(#[trigger] hosts[k])
            &&& forall|x: Seq<char>| #[trigger]
                candidates(urls, hosts).contains(x) <==> found_in_some(v, x)
        }),
    decreases v.len(),
{
    let urls = matches_together(v, urls_at());
    let hosts = Seq::new(4, |k: int| matches_together(v, hosts_at(k)));
    if v.len() == 0 {
        lemma_no_matches(hosts);
    } else {
        let a = v[0];
        let rest = v.skip(1);
        let n = encode_utf8(a).len() as int;
        assert forall|i: int| 0 <= i < rest.len() implies matches_lie_in(#[trigger] rest[i]) by {
            assert(rest[i] == v[i + 1]);
        }
        lemma_matches_in_pieces(rest);
        let far_urls = matches_together(rest, urls_at());
        let far_hosts = Seq::new(4, |k: int| matches_together(rest, hosts_at(k)));
        let near = hosts_in(a);
        assert(matches_lie_in(a));
        lemma_pieces_are_within(urls_in(a), a);
        assert forall|k: int| 0 <= k < near.len() implies within(#[trigger] near[k], n) by {
            lemma_pieces_are_within(near[k], a);
        }
        lemma_candidates_in_parts(urls_in(a), far_urls, near, far_hosts, n);
        assert(hosts =~= both_parts(near, far_hosts, n)) by {
            assert forall|k: int| 0 <= k < 4 implies #[trigger] hosts[k] == near[k] + moved(
                far_hosts[k],
                n,
            ) by {
                lemma_matches_together(v, hosts_at(k));
            }
        }
        lemma_matches_together(v, urls_at());
        assert(urls == urls_in(a) + moved(far_urls, n));
        assert forall|k: int| 0 <= k < 4 implies from_zero(#[trigger] hosts[k]) by {
            lemma_both_from_zero(near[k], far_hosts[k], n);
        }
        lemma_both_from_zero(urls_in(a), far_urls, n);
        assert forall|x: Seq<char>| #[trigger]
            candidates(urls, hosts).contains(x) <==> found_in_some(v, x) by {
            if found_in_some(rest, x) {
                let i = choose|i: int|
                    0 <= i < rest.len() && text_candidates(#[trigger] rest[i]).contains(x);
                assert(text_candidates(v[i + 1]).contains(x));
            }
            if found_in_some(v, x) {
                let i = choose|i: int|
                    0 <= i < v.len() && text_candidates(#[trigger] v[i]).contains(x);
                if i > 0 {
                    assert(text_candidates(rest[i - 1]).contains(x));
                }
            }
            assert(candidates(far_urls, far_hosts).contains(x) <==> found_in_some(rest, x));
            assert(candidates(urls_in(a), near) == text_candidates(v[0]));
        }
    }
}

proof fn lemma_both_from_zero(
    a: Seq<(int, int, Seq<char>)>,
    b: Seq<(int, int, Seq<char>)>,
    n: int,
)
    requires
        within(a, n),
        from_zero(b),
        n >= 0,
    ensures
        from_zero(a + moved(b, n)),
{
    let all = a + moved(b, n);
    assert forall|i: int| 0 <= i < all.len() implies 0 <= (#[trigger] all[i]).0 <= all[i].1 by {
        if i < a.len() {
            assert(all[i] == a[i]);
        } else {
            assert(0 <= b[i - a.len()].0 <= b[i - a.len()].1);
        }
    }
}

proof fn lemma_united_lists(v: Seq<Seq<Seq<char>>>)
    ensures
        united_lists(v).no_duplicates(),
        forall|x: Seq<char>| #[trigger]
            united_lists(v).contains(x) <==> exists|i: int|
                0 <= i < v.len() && (#[trigger] v[i]).contains(x),
    decreases v.len(),
{
    if v.len() > 0 {
        let w = v.drop_last();
        lemma_united_lists(w);
        lemma_all_added(united_lists(w), v.last());
        assert forall|x: Seq<char>| #[trigger]
            united_lists(v).contains(x) <==> exists|i: int|
                0 <= i < v.len() && (#[trigger] v[i]).contains(x) by {
            if united_lists(w).contains(x) {
                let i = choose|i: int| 0 <= i < w.len() && (#[trigger] w[i]).contains(x);
                assert(v[i].contains(x));
            }
            if exists|i: int| 0 <= i < v.len() && (#[trigger] v[i]).contains(x) {
                let i = choose|i: int| 0 <= i < v.len() && (#[trigger] v[i]).contains(x);
                if i < w.len() {
                    assert(w[i].contains(x));
                }
            }
            assert(v[v.len() - 1] == v.last());
        }
    }
}

proof fn lemma_same_union(v: Seq<Seq<Seq<char>>>, w: Seq<Seq<Seq<char>>>)
    requires
        v.len() == w.len(),
        forall|i: int| 0 <= i < w.len() ==> v[i].to_set() == (#[trigger] w[i]).to_set(),
    ensures
        united_lists(v).to_set() == united_lists(w).to_set(),
{
    lemma_united_lists(v);
    lemma_united_lists(w);
    assert forall|i: int, x: Seq<char>| 0 <= i < w.len() implies #[trigger] v[i].contains(x)
        == #[trigger] w[i].contains(x) by {
        assert(v[i].to_set().contains(x) == w[i].to_set().contains(x));
    }
    assert forall|x: Seq<char>| #[trigger]
        united_lists(v).contains(x) == united_lists(w).contains(x) by {
        if united_lists(v).contains(x) {
            let i = choose|i: int| 0 <= i < v.len() && (#[trigger] v[i]).contains(x);
            assert(w[i].contains(x));
        }
        if united_lists(w).contains(x) {
            let i = choose|i: int| 0 <= i < w.len() && (#[trigger] w[i]).contains(x);
            assert(v[i].contains(x));
        }
    }
    assert(united_lists(v).to_set() =~= united_lists(w).to_set());
}

proof fn lemma_pieces_give_the_same_candidates(
    text: Seq<char>,
    threads: usize,
    chunk_size: usize,
)
    requires
        ({
            let v = search_chunks(text, threads, chunk_size);
            &&& forall|i: int| 0 <= i < v.len() ==> matches_lie_in(#[trigger] v[i])
            &&& cut_between_matches(text, v)
        }),
    ensures
        chunked_candidates(text, threads, chunk_size).no_duplicates(),
        chunked_candidates(text, threads, chunk_size).to_set() == text_candidates(text).to_set(),
{
    let v = search_chunks(text, threads, chunk_size);
    let lists = v.map_values(|c: Seq<char>| text_candidates(c));
    lemma_matches_in_pieces(v);
    lemma_united_lists(lists);
    let hosts = Seq::new(4, |k: int| matches_together(v, hosts_at(k)));
    assert(hosts_in(text) =~= hosts) by {
        assert forall|k: int| 0 <= k < 4 implies hosts_in(text)[k] == #[trigger] hosts[k] by {
            assert(hosts_in(text)[k] == matches_together(v, hosts_at(k)));
        }
    }
    assert forall|x: Seq<char>| #[trigger]
        chunked_candidates(text, threads, chunk_size).contains(x) <==> text_candidates(
            text,
        ).contains(x) by {
        if found_in_some(v, x) {
            let i = choose|i: int| 0 <= i < v.len() && text_candidates(#[trigger] v[i]).contains(x);
            assert(lists[i].contains(x));
        }
        if united_lists(lists).contains(x) {
            let i = choose|i: int| 0 <= i < lists.len() && (#[trigger] lists[i]).contains(x);
            assert(text_candidates(v[i]).contains(x));
        }
    }
    assert(chunked_candidates(text, threads, chunk_size).to_set() =~= text_candidates(
        text,
    ).to_set());
}

/// The candidates of a text that is searched in pieces.
pub open spec fn chunked_candidates(text: Seq<char>, threads: usize, chunk_size: usize) -> Seq<
    Seq<char>,
> {
    united_lists(
        search_chunks(text, threads, chunk_size).map_values(|c: Seq<char>| text_candidates(c)),
    )
}

proof fn lemma_chunks_are_lines_apart(text: Seq<char>, threads: usize, chunk_size: usize)
    ensures
        lines_apart(search_chunks(text, threads, chunk_size)),
{
    let n = chunk_lines(chunk_size);
    let v = chunks_from(text, 0, n);
    assert forall|k: int| 0 <= k < v.len() - 1 implies (#[trigger] v[k]).len() > 0 && v[k].last()
        == '\n' by {
        law_chunks_end_with_lines(text, 0, n, k);
    }
}

/// Searches a text in pieces. The candidates are those of the text in one piece, each once.
pub fn extract_text(text: &str, threads: usize, chunk_size: usize) -> (r: Vec<String>)
    ensures
        texts(r@) == chunked_candidates(text@, threads, chunk_size),
        texts(r@).no_duplicates(),
        texts(r@).to_set() == text_candidates(text@).to_set(),
{
    let chunks = cut_text(text, threads, chunk_size);
    let ghost all = search_chunks(text@, threads, chunk_size);
    let parts = from_texts(&chunks);
    assert(forall|i: int| 0 <= i < chunks@.len() ==> chunks@[i]@ == #[trigger] all[i]);
    assert(list_texts(parts@) =~= all.map_values(|c: Seq<char>| text_candidates(c)));
    proof {
        assert forall|i: int| 0 <= i < all.len() implies matches_lie_in(#[trigger] all[i]) by {
            assert(texts(parts@[i]@).no_duplicates());
            assert(chunks@[i]@ == all[i]);
        }
        law_chunks_are_lossless(text@, threads, chunk_size);
        lemma_chunks_are_lines_apart(text@, threads, chunk_size);
        lemma_pieces_give_the_same_candidates(text@, threads, chunk_size);
    }
    unite_lists(&parts)
}

fn line_strings(text: &str) -> (r: Vec<String>)
    ensures
        texts(r@) == lines(text@),
{
    let parts = lines_of(chars_of(text).as_slice());
    let ghost all = lines(text@);
    let mut out: Vec<String> = Vec::new();
    let mut i: usize = 0;
    while i < parts.len()
        invariant
            i <= parts@.len(),
            all == char_texts(parts@),
            out@.len() == i,
            forall|j: int| 0 <= j < i ==> (#[trigger] out@[j])@ == all[j],
        decreases parts.len() - i,
    {
        assert(all[i as int] == parts@[i as int]@);
        out.push(string_of(parts[i].as_slice()));
        i += 1;
    }
    assert(texts(out@) =~= all);
    out
}

/// How input is searched.
pub struct SearchOptions {
    pub format: InputFormat,
    /// Keys to which JSON scanning is restricted.
    pub json_fields: Vec<String>,
    pub threads: usize,
    pub chunk_size: usize,
}

/// The candidates of one input.
pub open spec fn input_candidates(input: Seq<char>, o: SearchOptions) -> Seq<Seq<char>> {
    match o.format {
        InputFormat::Text => chunked_candidates(input, o.threads, o.chunk_size),
        InputFormat::Urls => line_candidates(lines(input)),
        InputFormat::Json => strings_candidates(json_strings(input, texts(o.json_fields@))),
        InputFormat::San => san_candidates(lines(input)),
    }
}

/// Searches one input.
pub fn extract_formatted(input: &str, options: &SearchOptions) -> (r: Vec<String>)
    ensures
        texts(r@) == input_candidates(input@, *options),
        options.format == InputFormat::Text ==> texts(r@).to_set() == text_candidates(
            input@,
        ).to_set(),
{
    match options.format {
        InputFormat::Text => extract_text(input, options.threads, options.chunk_size),
        InputFormat::Urls => from_urls(&line_strings(input)),
        InputFormat::Json => from_json(input, &options.json_fields),
        InputFormat::San => from_san(&line_strings(input)),
    }
}

/// The candidates of several inputs, each once. Those of text inputs are those of each text
/// in one piece, however many threads and whatever chunks are asked for.
pub fn extract_candidates(inputs: &Vec<String>, options: &SearchOptions) -> (r: Vec<String>)
    ensures
        texts(r@) == united_lists(
            texts(inputs@).map_values(|i: Seq<char>| input_candidates(i, *options)),
        ),
        texts(r@).no_duplicates(),
        options.format == InputFormat::Text ==> texts(r@).to_set() == united_lists(
            texts(inputs@).map_values(|i: Seq<char>| text_candidates(i)),
        ).to_set(),
{
    let ghost all = texts(inputs@);
    let mut parts: Vec<Vec<String>> = Vec::new();
    let mut i: usize = 0;
    while i < inputs.len()
        invariant
            i <= inputs@.len(),
            all == texts(inputs@),
            parts@.len() == i,
            forall|j: int|
                0 <= j < i ==> texts((#[trigger] parts@[j])@) == input_candidates(
                    all[j],
                    *options,
                ),
            forall|j: int|
                0 <= j < i && options.format == InputFormat::Text ==> texts(
                    (#[trigger] parts@[j])@,
                ).to_set() == text_candidates(all[j]).to_set(),
        decreases inputs.len() - i,
    {
        assert(all[i as int] == inputs@[i as int]@);
        parts.push(extract_formatted(inputs[i].as_str(), options));
        i += 1;
    }
    assert(list_texts(parts@) =~= all.map_values(|i: Seq<char>| input_candidates(i, *options)));
    proof {
        if options.format == InputFormat::Text {
            let whole = all.map_values(|i: Seq<char>| text_candidates(i));
            assert forall|j: int| 0 <= j < whole.len() implies list_texts(parts@)[j].to_set()
                == (#[trigger] whole[j]).to_set() by {
                assert(texts(parts@[j]@).to_set() == text_candidates(all[j]).to_set());
            }
            lemma_same_union(list_texts(parts@), whole);
        }
    }
    unite_lists(&parts)
}

// ---------------------------------------------------------------------------
// Assets

/// The assets that candidates are.
pub open spec fn assets_of(v: Seq<Seq<char>>, suffixes: Map<Seq<char>, bool>) -> Seq<AssetView> {
    v.map_values(|c: Seq<char>| asset_of_input(c, suffixes))
}

/// Classifies candidates one by one.
pub fn classify_all(candidates: &Vec<String>, list: &SuffixList) -> (r: Vec<Asset>)
    ensures
        views(r@) == assets_of(texts(candidates@), list@),
{
    let ghost all = texts(candidates@);
    let mut out: Vec<Asset> = Vec::new();
    let mut i: usize = 0;
    while i < candidates.len()
        invariant
            i <= candidates@.len(),
            all == texts(candidates@),
            out@.len() == i,
            forall|j: int|
                0 <= j < i ==> (#[trigger] out@[j])@ == asset_of_input(all[j], list@),
        decreases candidates.len() - i,
    {
        assert(all[i as int] == candidates@[i as int]@);
        out.push(classify_str(candidates[i].as_str(), list));
        i += 1;
    }
    assert(views(out@) =~= assets_of(all, list@));
    out
}

/// The assets that are kept: without garbage, unless it is asked for, and deduplicated,
/// unless that is declined.
pub open spec fn assembled(v: Seq<AssetView>, include_garbage: bool, no_dedupe: bool) -> Seq<
    AssetView,
> {
    let kept = if include_garbage {
        v
    } else {
        v.filter(|a: AssetView| !(a.kind is Garbage))
    };
    if no_dedupe {
        kept
    } else {
        deduped(kept)
    }
}

/// Keeps the assets of some kinds.
pub fn keep_kinds(assets: Vec<Asset>, kinds: &Vec<AssetKind>) -> (r: Vec<Asset>)
    ensures
        views(r@) == views(assets@).filter(|a: AssetView| kinds@.contains(a.kind)),
{
    let ghost p = |a: AssetView| kinds@.contains(a.kind);
    let ghost all = views(assets@);
    let mut out: Vec<Asset> = Vec::new();
    proof {
        reveal(Seq::filter);
        assert(all.take(0) =~= Seq::empty());
        assert(views(out@) =~= all.take(0).filter(p));
    }
    for a in it: assets
        invariant
            it.seq() == assets@,
            all == views(assets@),
            p == (|a: AssetView| kinds@.contains(a.kind)),
            views(out@) == all.take(it.index() as int).filter(p),
    {
        let ghost before = views(out@);
        let ghost view = a@;
        proof {
            reveal(Seq::filter);
            assert(all.take(it.index() + 1).drop_last() =~= all.take(it.index() as int));
            assert(all.take(it.index() + 1).last() == view);
        }
        if has_kind(kinds, a.kind) {
            out.push(a);
            assert(views(out@) =~= before.push(view));
        }
    }
    assert(all.take(all.len() as int) =~= all);
    out
}

fn has_kind(kinds: &Vec<AssetKind>, kind: AssetKind) -> (r: bool)
    ensures
        r == kinds@.contains(kind),
{
    let mut i: usize = 0;
    while i < kinds.len()
        invariant
            i <= kinds@.len(),
            forall|j: int| 0 <= j < i ==> kinds@[j] != kind,
        decreases kinds.len() - i,
    {
        if kinds[i] == kind {
            return true;
        }
        i += 1;
    }
    false
}

proof fn lemma_same_filter(
    v: Seq<AssetView>,
    p: spec_fn(AssetView) -> bool,
    q: spec_fn(AssetView) -> bool,
)
    requires
        forall|a: AssetView| #[trigger] p(a) == q(a),
    ensures
        v.filter(p) == v.filter(q),
    decreases v.len(),
{
    reveal(Seq::filter);
    if v.len() > 0 {
        lemma_same_filter(v.drop_last(), p, q);
    }
}

/// Drops garbage, unless it is asked for, and deduplicates, unless that is declined.
pub fn assemble(assets: Vec<Asset>, include_garbage: bool, no_dedupe: bool) -> (r: Vec<Asset>)
    ensures
        views(r@) == assembled(views(assets@), include_garbage, no_dedupe),
{
    let ghost all = views(assets@);
    let kept = if include_garbage {
        assets
    } else {
        let mut kinds: Vec<AssetKind> = Vec::new();
        kinds.push(AssetKind::Apex);
        kinds.push(AssetKind::Subdomain);
        kinds.push(AssetKind::Wildcard);
        kinds.push(AssetKind::Ip);
        proof {
            assert(kinds@[0] is Apex && kinds@[1] is Subdomain && kinds@[2] is Wildcard
                && kinds@[3] is Ip);
            let p = |a: AssetView| kinds@.contains(a.kind);
            let q = |a: AssetView| !(a.kind is Garbage);
            assert forall|a: AssetView| #[trigger] p(a) == q(a) by {}
            lemma_same_filter(all, p, q);
        }
        keep_kinds(assets, &kinds)
    };
    if no_dedupe {
        kept
    } else {
        dedupe(kept)
    }
}

/// Runs extraction, classification and deduplication.
pub fn canonicalize(
    inputs: &Vec<String>,
    options: &SearchOptions,
    include_garbage: bool,
    no_dedupe: bool,
    list: &SuffixList,
) -> (r: Vec<Asset>)
    ensures
        views(r@) == assembled(
            assets_of(
                united_lists(
                    texts(inputs@).map_values(|i: Seq<char>| input_candidates(i, *options)),
                ),
                list@,
            ),
            include_garbage,
            no_dedupe,
        ),
{
    let candidates = extract_candidates(inputs, options);
    assemble(classify_all(&candidates, list), include_garbage, no_dedupe)
}

// ---------------------------------------------------------------------------
// Scope

/// An asset with the rules that match it.
pub struct ScopedAsset {
    pub asset: Asset,
    pub rules: Vec<String>,
}

/// Whether some rule matches an asset.
pub open spec fn in_scope(rules: Seq<RuleView>, a: AssetView, respect_port: bool, strict: bool) -> bool {
    exists|t: Seq<char>| #[trigger] some_hit(rules, t, a, scope_host(a, respect_port), strict)
}

/// An asset marked as in scope or out of scope.
pub open spec fn marked(a: AssetView, inside: bool) -> AssetView {
    AssetView {
        scope: if inside {
            ScopeStatus::InScope
        } else {
            ScopeStatus::OutOfScope
        },
        ..a
    }
}

/// Whether an entry is an asset with all the rules that match it, each once.
pub open spec fn is_scoped(
    e: ScopedAsset,
    a: AssetView,
    rules: Seq<RuleView>,
    respect_port: bool,
    strict: bool,
) -> bool {
    &&& e.asset@ == marked(a, in_scope(rules, a, respect_port, strict))
    &&& texts(e.rules@).no_duplicates()
    &&& forall|t: Seq<char>| #[trigger]
        texts(e.rules@).contains(t) <==> some_hit(rules, t, a, scope_host(a, respect_port), strict)
}

/// Marks an asset as in scope or out of scope.
pub fn scope_asset(asset: Asset, matcher: &ScopeMatcher, strict: bool) -> (r: ScopedAsset)
    requires
        matcher.wf(),
    ensures
        is_scoped(r, asset@, matcher@, matcher.respects_port(), strict),
{
    let mut asset = asset;
    let ghost before = asset@;
    let rules = matcher.matches(&asset, strict);
    proof {
        let host = scope_host(before, matcher.respects_port());
        if rules@.len() > 0 {
            let t = texts(rules@)[0];
            assert(texts(rules@).contains(t));
            assert(some_hit(matcher@, t, before, host, strict));
        }
        if in_scope(matcher@, before, matcher.respects_port(), strict) {
            let t = choose|t: Seq<char>| #[trigger] some_hit(matcher@, t, before, host, strict);
            assert(texts(rules@).contains(t));
        }
    }
    asset.scope = if rules.len() == 0 {
        ScopeStatus::OutOfScope
    } else {
        ScopeStatus::InScope
    };
    ScopedAsset { asset, rules }
}

/// The assets that a scope filter keeps: those in scope or, inverted, those out of scope.
pub open spec fn scope_filtered(
    v: Seq<AssetView>,
    rules: Seq<RuleView>,
    respect_port: bool,
    strict: bool,
    invert: bool,
) -> Seq<AssetView> {
    v.filter(|a: AssetView| in_scope(rules, a, respect_port, strict) != invert)
}

/// Marks assets and keeps those in scope or, inverted, those out of scope.
pub fn apply_scope(assets: Vec<Asset>, matcher: &ScopeMatcher, strict: bool, invert: bool) -> (r:
    Vec<ScopedAsset>)
    requires
        matcher.wf(),
    ensures
        ({
            let kept = scope_filtered(
                views(assets@),
                matcher@,
                matcher.respects_port(),
                strict,
                invert,
            );
            &&& r@.len() == kept.len()
            &&& forall|i: int|
                0 <= i < r@.len() ==> is_scoped(
                    #[trigger] r@[i],
                    kept[i],
                    matcher@,
                    matcher.respects_port(),
                    strict,
                )
        }),
{
    let ghost port = matcher.respects_port();
    let ghost p = |a: AssetView| in_scope(matcher@, a, port, strict) != invert;
    let ghost all = views(assets@);
    let mut out: Vec<ScopedAsset> = Vec::new();
    proof {
        reveal(Seq::filter);
        assert(all.take(0) =~= Seq::empty());
    }
    for a in it: assets
        invariant
            it.seq() == assets@,
            all == views(assets@),
            matcher.wf(),
            port == matcher.respects_port(),
            p == (|a: AssetView| in_scope(matcher@, a, port, strict) != invert),
            out@.len() == all.take(it.index() as int).filter(p).len(),
            forall|i: int|
                0 <= i < out@.len() ==> is_scoped(
                    #[trigger] out@[i],
                    all.take(it.index() as int).filter(p)[i],
                    matcher@,
                    port,
                    strict,
                ),
    {
        let ghost view = a@;
        let ghost before = all.take(it.index() as int).filter(p);
        proof {
            reveal(Seq::filter);
            assert(all.take(it.index() + 1).drop_last() =~= all.take(it.index() as int));
            assert(all.take(it.index() + 1).last() == view);
        }
        let e = scope_asset(a, matcher, strict);
        let inside = e.asset.scope == ScopeStatus::InScope;
        if inside != invert {
            out.push(e);
        }
    }
    assert(all.take(all.len() as int) =~= all);
    out
}

/// An asset is marked as in scope exactly if some rule matches it, nothing else about it
/// changes, and the filter and the inverted filter keep every asset between them, none of
/// them both.
pub proof fn law_scope_splits_assets(
    v: Seq<AssetView>,
    rules: Seq<RuleView>,
    respect_port: bool,
    strict: bool,
    i: int,
)
    requires
        0 <= i < v.len(),
    ensures
        ({
            let kept = scope_filtered(v, rules, respect_port, strict, false);
            let dropped = scope_filtered(v, rules, respect_port, strict, true);
            let host = scope_host(v[i], respect_port);
            let hit = exists|j: int|
                0 <= j < rules.len() && hits(#[trigger] rules[j], v[i], host, strict);
            &&& kept.contains(v[i]) <==> hit
            &&& dropped.contains(v[i]) <==> !hit
            &&& kept.len() + dropped.len() == v.len()
        }),
{
    let a = v[i];
    let host = scope_host(a, respect_port);
    let p = |a: AssetView| in_scope(rules, a, respect_port, strict) != false;
    let q = |a: AssetView| in_scope(rules, a, respect_port, strict) != true;
    lemma_filter_contains(v, p, a);
    lemma_filter_contains(v, q, a);
    lemma_filters_split(v, p, q);
    assert(v.contains(a));
    if exists|j: int| 0 <= j < rules.len() && hits(#[trigger] rules[j], a, host, strict) {
        let j = choose|j: int| 0 <= j < rules.len() && hits(#[trigger] rules[j], a, host, strict);
        assert(some_hit(rules, rules[j].raw, a, host, strict));
    }
    if in_scope(rules, a, respect_port, strict) {
        let t = choose|t: Seq<char>| #[trigger] some_hit(rules, t, a, host, strict);
        let j = choose|j: int|
            0 <= j < rules.len() && hits(#[trigger] rules[j], a, host, strict) && rules[j].raw == t;
        assert(hits(rules[j], a, host, strict));
    }
}

proof fn lemma_filter_contains(v: Seq<AssetView>, p: spec_fn(AssetView) -> bool, x: AssetView)
    ensures
        v.filter(p).contains(x) <==> v.contains(x) && p(x),
    decreases v.len(),
{
    reveal(Seq::filter);
    if v.len() > 0 {
        let w = v.drop_last();
        let y = v[v.len() - 1];
        lemma_filter_contains(w, p, x);
        assert(v =~= w.push(y));
        crate::lists::lemma_push_contains(w, y, x);
        crate::lists::lemma_push_contains(w.filter(p), y, x);
    }
}

proof fn lemma_filters_split(
    v: Seq<AssetView>,
    p: spec_fn(AssetView) -> bool,
    q: spec_fn(AssetView) -> bool,
)
    requires
        forall|a: AssetView| #[trigger] p(a) == !q(a),
    ensures
        v.filter(p).len() + v.filter(q).len() == v.len(),
    decreases v.len(),
{
    reveal(Seq::filter);
    if v.len() > 0 {
        lemma_filters_split(v.drop_last(), p, q);
        assert(p(v.last()) == !q(v.last()));
    }
}

/// Of assembled assets nothing but garbage is dropped and nothing is made up: without
/// deduplication an asset is kept exactly if it is no garbage or garbage is asked for, and
/// with it the same keys are left.
pub proof fn law_only_garbage_is_dropped(
    v: Seq<AssetView>,
    include_garbage: bool,
    a: AssetView,
)
    ensures
        assembled(v, include_garbage, true).contains(a) <==> v.contains(a) && (include_garbage
            || !(a.kind is Garbage)),
        v.contains(a) && (include_garbage || !(a.kind is Garbage)) ==> has_key(
            assembled(v, include_garbage, false),
            a.key(),
        ),
{
    let p = |a: AssetView| !(a.kind is Garbage);
    lemma_filter_contains(v, p, a);
    let kept = assembled(v, include_garbage, true);
    law_one_record_per_key(kept);
    if kept.contains(a) {
        let i = choose|i: int| 0 <= i < kept.len() && kept[i] == a;
        assert(kept[i].key() == a.key());
        assert(has_key(kept, a.key()));
    }
}

/// Candidates of several lists are united to exactly those that one of the lists has, each
/// once.
pub proof fn law_lists_are_united(v: Seq<Seq<Seq<char>>>, x: Seq<char>)
    ensures
        united_lists(v).contains(x) <==> exists|i: int|
            0 <= i < v.len() && (#[trigger] v[i]).contains(x),
        united_lists(v).no_duplicates(),
{
    lemma_united_lists(v);
}

/// Of an input that lists URLs every line that is not blank is a candidate, and of several
/// inputs no candidate of one is lost.
pub proof fn law_every_listed_line_becomes_a_candidate(
    input: Seq<char>,
    options: SearchOptions,
    i: int,
)
    requires
        options.format is Urls,
        0 <= i < lines(input).len(),
        clean_token(lines(input)[i]).len() > 0,
    ensures
        input_candidates(input, options).contains(clean_token(lines(input)[i])),
{
    law_every_line_is_a_candidate(lines(input), clean_token(lines(input)[i]));
    assert(clean_token(lines(input)[i]) == clean_token(lines(input)[i]));
}

/// Each format is searched in its own way: the keys matter only for JSON, and threads and
/// chunks only for text.
pub proof fn law_formats_are_searched_apart(
    input: Seq<char>,
    o: SearchOptions,
    p: SearchOptions,
)
    requires
        o.format == p.format,
    ensures
        !(o.format is Text) && texts(o.json_fields@) == texts(p.json_fields@) ==> input_candidates(
            input,
            o,
        ) == input_candidates(input, p),
        !(o.format is Json) && o.threads == p.threads && o.chunk_size == p.chunk_size
            ==> input_candidates(input, o) == input_candidates(input, p),
{
}

/// Each candidate becomes the asset that it is classified as, in the order of the candidates.
pub proof fn law_each_candidate_is_classified(
    v: Seq<Seq<char>>,
    suffixes: Map<Seq<char>, bool>,
    i: int,
)
    requires
        0 <= i < v.len(),
    ensures
        assets_of(v, suffixes).len() == v.len(),
        assets_of(v, suffixes)[i] == asset_of_input(v[i], suffixes),
        assets_of(v, suffixes)[i].raw == v[i],
{
    let n = normal_form(v[i]);
    law_kind_decides_fields(n, registrable_form(registrable_part(suffixes, domain_base(n))));
    lemma_raw_is_kept(v[i]);
}

/// Marking an asset sets its scope and changes nothing else.
pub proof fn law_marks_tell_the_scope(a: AssetView, inside: bool)
    ensures
        marked(a, inside).scope is InScope <==> inside,
        marked(a, inside).scope is OutOfScope <==> !inside,
        (AssetView { scope: a.scope, ..marked(a, inside) }) == a,
{
}

} // verus!

//! Character-level text operations.
//!
//! Strings are viewed as `Seq<char>`. The executable functions work on `&[char]`
//! so that slicing never has to reason about UTF-8 boundaries.

use vstd::prelude::*;
use vstd::slice::slice_subrange;
use vstd::utf8::is_ascii_chars;

verus! {

/// `String::push` appends one character.
pub assume_specification[ String::push ](s: &mut String, c: char)
    ensures
        final(s)@ == old(s)@.push(c),
;

/// What `char::is_alphanumeric` answers for a character.
pub uninterp spec fn unicode_alphanumeric(c: char) -> bool;

/// Calls `char::is_alphanumeric`. The answer is fixed by the character alone: of ASCII,
/// letters and digits are alphanumeric; of the rest it is the union of two Unicode
/// properties, which are not spelled out here.
#[verifier::external_body]
fn is_alphanumeric(c: char) -> (r: bool)
    ensures
        r == unicode_alphanumeric(c),
        c <= '\u{7f}' ==> r == (is_letter(c) || is_digit(c)),
{
    c.is_alphanumeric()
}

/// What `str::to_lowercase` returns for a string.
pub uninterp spec fn unicode_lowercase(s: Seq<char>) -> Seq<char>;

/// Calls `str::to_lowercase`. The result is fixed by the string alone: it is the
/// Unicode lowercase mapping, which turns the capitals of an ASCII text into small letters
/// and leaves the rest of it alone, and is not spelled out further.
#[verifier::external_body]
pub(crate) fn to_unicode_lowercase(s: &str) -> (r: String)
    ensures
        r@ == unicode_lowercase(s@),
        is_ascii_chars(s@) ==> r@ == lowered(s@),
{
    s.to_lowercase()
}

/// The text in lowercase: in ASCII, with its capitals as small letters; else as the
/// Unicode mapping has it.
pub open spec fn in_lowercase(s: Seq<char>) -> Seq<char> {
    if is_ascii_chars(s) {
        lowered(s)
    } else {
        unicode_lowercase(s)
    }
}

/// Whether a character is a letter or a digit.
pub open spec fn is_letter_or_digit(c: char) -> bool {
    if c <= '\u{7f}' {
        is_letter(c) || is_digit(c)
    } else {
        unicode_alphanumeric(c)
    }
}

// ---------------------------------------------------------------------------
// Character classes

/// A set of characters that trimming and scanning can ask about.
#[derive(Clone, Copy)]
pub enum CharClass {
    /// Characters with the Unicode `White_Space` property.
    Whitespace,
    /// Quotes, angle brackets, parentheses and braces around a value.
    Surrounding,
    /// Punctuation that can cling to a token cut out of prose.
    TokenEdge,
    /// Whatever cannot begin a host candidate.
    NotCandidateStart,
    /// Whatever cannot end a host candidate.
    NotCandidateEnd,
    /// `/`, `?` and `#`, which end the authority of a URL.
    AuthorityEnd,
    /// A comma or whitespace.
    ListSeparator,
    /// ASCII letters.
    Letter,
    /// ASCII letters, digits, `+`, `.` and `-`, which a URL scheme is made of.
    SchemeChar,
    /// ASCII lowercase letters and digits, the edges of a host label.
    LabelEdge,
    /// ASCII lowercase letters, digits and `-`, the inside of a host label.
    LabelInside,
    /// ASCII decimal digits.
    Digit,
    /// ASCII hexadecimal digits.
    HexDigit,
    /// Exactly one character.
    Is(char),
}

/// The Unicode `White_Space` property.
pub open spec fn is_whitespace(c: char) -> bool {
    ||| '\u{9}' <= c <= '\u{d}'
    ||| c == ' '
    ||| c == '\u{85}'
    ||| c == '\u{a0}'
    ||| c == '\u{1680}'
    ||| '\u{2000}' <= c <= '\u{200a}'
    ||| c == '\u{2028}'
    ||| c == '\u{2029}'
    ||| c == '\u{202f}'
    ||| c == '\u{205f}'
    ||| c == '\u{3000}'
}

/// `"`, `'`, a backtick, and the bracket pairs `<>`, `()` and `{}`.
pub open spec fn is_surrounding(c: char) -> bool {
    ||| c == '"'
    ||| c == '\''
    ||| c == '`'
    ||| c == '<'
    ||| c == '>'
    ||| c == '('
    ||| c == ')'
    ||| c == '{'
    ||| c == '}'
}

/// The ASCII letters.
pub open spec fn is_letter(c: char) -> bool {
    'a' <= c <= 'z' || 'A' <= c <= 'Z'
}

/// The ASCII decimal digits.
pub open spec fn is_digit(c: char) -> bool {
    '0' <= c <= '9'
}

/// The ASCII hexadecimal digits.
pub open spec fn is_hex_digit(c: char) -> bool {
    '0' <= c <= '9' || 'a' <= c <= 'f' || 'A' <= c <= 'F'
}

impl CharClass {
    pub open spec fn has(self, c: char) -> bool {
        match self {
            CharClass::Whitespace => is_whitespace(c),
            CharClass::Surrounding => is_surrounding(c),
            CharClass::TokenEdge => is_surrounding(c) || c == ',' || c == ';',
            CharClass::NotCandidateStart => {
                !(is_letter_or_digit(c) || c == '[' || c == '*' || c == ':')
            },
            CharClass::NotCandidateEnd => {
                !(is_letter_or_digit(c) || c == ']' || c == '.' || c == '*')
            },
            CharClass::AuthorityEnd => c == '/' || c == '?' || c == '#',
            CharClass::ListSeparator => c == ',' || is_whitespace(c),
            CharClass::Letter => is_letter(c),
            CharClass::SchemeChar => {
                is_letter(c) || is_digit(c) || c == '+' || c == '.' || c == '-'
            },
            CharClass::LabelEdge => 'a' <= c <= 'z' || is_digit(c),
            CharClass::LabelInside => 'a' <= c <= 'z' || is_digit(c) || c == '-',
            CharClass::Digit => is_digit(c),
            CharClass::HexDigit => is_hex_digit(c),
            CharClass::Is(d) => c == d,
        }
    }

    /// Tests whether the class holds `c`.
    pub fn test(self, c: char) -> (r: bool)
        ensures
            r == self.has(c),
    {
        match self {
            CharClass::Whitespace => test_whitespace(c),
            CharClass::Surrounding => test_surrounding(c),
            CharClass::TokenEdge => test_surrounding(c) || c == ',' || c == ';',
            CharClass::NotCandidateStart => {
                !(is_alphanumeric(c) || c == '[' || c == '*' || c == ':')
            },
            CharClass::NotCandidateEnd => {
                !(is_alphanumeric(c) || c == ']' || c == '.' || c == '*')
            },
            CharClass::AuthorityEnd => c == '/' || c == '?' || c == '#',
            CharClass::ListSeparator => c == ',' || test_whitespace(c),
            CharClass::Letter => test_letter(c),
            CharClass::SchemeChar => {
                test_letter(c) || ('0' <= c && c <= '9') || c == '+' || c == '.' || c == '-'
            },
            CharClass::LabelEdge => ('a' <= c && c <= 'z') || ('0' <= c && c <= '9'),
            CharClass::LabelInside => {
                ('a' <= c && c <= 'z') || ('0' <= c && c <= '9') || c == '-'
            },
            CharClass::Digit => '0' <= c && c <= '9',
            CharClass::HexDigit => {
                ('0' <= c && c <= '9') || ('a' <= c && c <= 'f') || ('A' <= c && c <= 'F')
            },
            CharClass::Is(d) => c == d,
        }
    }
}

fn test_whitespace(c: char) -> (r: bool)
    ensures
        r == is_whitespace(c),
{
    ('\u{9}' <= c && c <= '\u{d}') || c == ' ' || c == '\u{85}' || c == '\u{a0}' || c == '\u{1680}'
        || ('\u{2000}' <= c && c <= '\u{200a}') || c == '\u{2028}' || c == '\u{2029}' || c
        == '\u{202f}' || c == '\u{205f}' || c == '\u{3000}'
}

fn test_letter(c: char) -> (r: bool)
    ensures
        r == is_letter(c),
{
    ('a' <= c && c <= 'z') || ('A' <= c && c <= 'Z')
}

fn test_surrounding(c: char) -> (r: bool)
    ensures
        r == is_surrounding(c),
{
    c == '"' || c == '\'' || c == '`' || c == '<' || c == '>' || c == '(' || c == ')' || c == '{'
        || c == '}'
}

// ---------------------------------------------------------------------------
// Conversions

/// The characters of a string.
pub fn chars_of(s: &str) -> (r: Vec<char>)
    ensures
        r@ == s@,
{
    let mut out: Vec<char> = Vec::new();
    for c in it: s.chars()
        invariant
            it.seq() == s@,
            out@ == s@.take(it.index() as int),
    {
        out.push(c);
        assert(out@ =~= s@.take(it.index() + 1));
    }
    assert(out@ =~= s@);
    out
}

/// The string made of the given characters.
pub fn string_of(s: &[char]) -> (r: String)
    ensures
        r@ == s@,
{
    let mut out = String::new();
    let mut i: usize = 0;
    while i < s.len()
        invariant
            i <= s.len(),
            out@ == s@.take(i as int),
        decreases s.len() - i,
    {
        out.push(s[i]);
        i += 1;
        assert(out@ =~= s@.take(i as int));
    }
    out
}

// ---------------------------------------------------------------------------
// Scanning

/// The least index at or after `i` whose character is in `k`, or the length.
pub open spec fn index_from(s: Seq<char>, k: CharClass, i: int) -> int
    decreases s.len() - i,
{
    if i >= s.len() {
        s.len() as int
    } else if k.has(s[i]) {
        i
    } else {
        index_from(s, k, i + 1)
    }
}

/// The least index at or after `i` whose character is not in `k`, or the length.
pub open spec fn past_from(s: Seq<char>, k: CharClass, i: int) -> int
    decreases s.len() - i,
{
    if i >= s.len() {
        s.len() as int
    } else if k.has(s[i]) {
        past_from(s, k, i + 1)
    } else {
        i
    }
}

/// The greatest index below `i` whose character is in `k`, or -1.
pub open spec fn index_before(s: Seq<char>, k: CharClass, i: int) -> int
    decreases i,
{
    if i <= 0 {
        -1
    } else if k.has(s[i - 1]) {
        i - 1
    } else {
        index_before(s, k, i - 1)
    }
}

/// The end of `s.take(i)` once its trailing characters in `k` are gone.
pub open spec fn end_before(s: Seq<char>, k: CharClass, i: int) -> int
    decreases i,
{
    if i <= 0 {
        0
    } else if k.has(s[i - 1]) {
        end_before(s, k, i - 1)
    } else {
        i
    }
}

/// The index of the first character in `k`, or the length when there is none.
pub open spec fn first_index(s: Seq<char>, k: CharClass) -> int {
    index_from(s, k, 0)
}

/// The index of the last character in `k`, or -1 when there is none.
pub open spec fn last_index(s: Seq<char>, k: CharClass) -> int {
    index_before(s, k, s.len() as int)
}

/// Whether some character of `s` is in `k`.
pub open spec fn has_any(s: Seq<char>, k: CharClass) -> bool {
    exists|i: int| 0 <= i < s.len() && k.has(#[trigger] s[i])
}

/// Whether every character of `s` is in `k`.
pub open spec fn has_only(s: Seq<char>, k: CharClass) -> bool {
    forall|i: int| 0 <= i < s.len() ==> k.has(#[trigger] s[i])
}

/// `s` without its leading characters in `k`.
pub open spec fn without_leading(s: Seq<char>, k: CharClass) -> Seq<char> {
    s.subrange(past_from(s, k, 0), s.len() as int)
}

/// `s` without its trailing characters in `k`.
pub open spec fn without_trailing(s: Seq<char>, k: CharClass) -> Seq<char> {
    s.subrange(0, end_before(s, k, s.len() as int))
}

/// `s` without the characters in `k` at either end.
pub open spec fn trimmed(s: Seq<char>, k: CharClass) -> Seq<char> {
    without_trailing(without_leading(s, k), k)
}

/// What `index_from` finds: nothing in `k` between `i` and the result.
pub proof fn lemma_index_from(s: Seq<char>, k: CharClass, i: int)
    requires
        0 <= i <= s.len(),
    ensures
        i <= index_from(s, k, i) <= s.len(),
        forall|j: int| i <= j < index_from(s, k, i) ==> !k.has(#[trigger] s[j]),
        index_from(s, k, i) < s.len() ==> k.has(s[index_from(s, k, i)]),
    decreases s.len() - i,
{
    if i < s.len() && !k.has(s[i]) {
        lemma_index_from(s, k, i + 1);
    }
}

/// What `past_from` skips: everything between `i` and the result is in `k`.
pub proof fn lemma_past_from(s: Seq<char>, k: CharClass, i: int)
    requires
        0 <= i <= s.len(),
    ensures
        i <= past_from(s, k, i) <= s.len(),
        forall|j: int| i <= j < past_from(s, k, i) ==> k.has(#[trigger] s[j]),
        past_from(s, k, i) < s.len() ==> !k.has(s[past_from(s, k, i)]),
    decreases s.len() - i,
{
    if i < s.len() && k.has(s[i]) {
        lemma_past_from(s, k, i + 1);
    }
}

/// What `index_before` finds: nothing in `k` between the result and `i`.
pub proof fn lemma_index_before(s: Seq<char>, k: CharClass, i: int)
    requires
        0 <= i <= s.len(),
    ensures
        -1 <= index_before(s, k, i) < i || (i == 0 && index_before(s, k, i) == -1),
        forall|j: int| index_before(s, k, i) < j < i ==> !k.has(#[trigger] s[j]),
        index_before(s, k, i) >= 0 ==> k.has(s[index_before(s, k, i)]),
    decreases i,
{
    if i > 0 && !k.has(s[i - 1]) {
        lemma_index_before(s, k, i - 1);
    }
}

/// What `end_before` drops: everything between the result and `i` is in `k`.
pub proof fn lemma_end_before(s: Seq<char>, k: CharClass, i: int)
    requires
        0 <= i <= s.len(),
    ensures
        0 <= end_before(s, k, i) <= i,
        forall|j: int| end_before(s, k, i) <= j < i ==> k.has(#[trigger] s[j]),
        end_before(s, k, i) > 0 ==> !k.has(s[end_before(s, k, i) - 1]),
    decreases i,
{
    if i > 0 && k.has(s[i - 1]) {
        lemma_end_before(s, k, i - 1);
    }
}

/// Trimming yields a contiguous piece with no character of `k` at either end.
pub proof fn lemma_trimmed(s: Seq<char>, k: CharClass)
    ensures
        trimmed(s, k).len() <= s.len(),
        past_from(s, k, 0) + trimmed(s, k).len() <= s.len(),
        trimmed(s, k).len() > 0 ==> !k.has(trimmed(s, k)[0]) && !k.has(trimmed(s, k).last()),
        trimmed(s, k).len() == 0 <==> has_only(s, k),
        trimmed(s, k) == s.subrange(
            past_from(s, k, 0),
            past_from(s, k, 0) + trimmed(s, k).len(),
        ),
{
    lemma_past_from(s, k, 0);
    let t = without_leading(s, k);
    lemma_end_before(t, k, t.len() as int);
    assert(trimmed(s, k) =~= s.subrange(
        past_from(s, k, 0),
        past_from(s, k, 0) + trimmed(s, k).len(),
    ));
    if trimmed(s, k).len() == 0 {
        assert forall|i: int| 0 <= i < s.len() implies k.has(#[trigger] s[i]) by {
            if i >= past_from(s, k, 0) {
                assert(t[i - past_from(s, k, 0)] == s[i]);
            }
        }
    }
}

/// A text with no character of `k` at either end is its own trimmed form.
pub proof fn lemma_unchanged_by_trim(t: Seq<char>, k: CharClass)
    requires
        t.len() > 0 ==> !k.has(t[0]) && !k.has(t.last()),
    ensures
        trimmed(t, k) == t,
        without_leading(t, k) == t,
        without_trailing(t, k) == t,
{
    assert(without_leading(t, k) =~= t);
    assert(without_trailing(t, k) =~= t);
}

/// The index of the first character in `k`, if there is one.
pub fn find(s: &[char], k: CharClass) -> (r: Option<usize>)
    ensures
        r matches Some(i) ==> i < s@.len() && i == first_index(s@, k),
        r is None ==> first_index(s@, k) == s@.len() && !has_any(s@, k),
        r is Some <==> has_any(s@, k),
{
    let mut i: usize = 0;
    while i < s.len()
        invariant
            i <= s.len(),
            index_from(s@, k, 0) == index_from(s@, k, i as int),
            forall|j: int| 0 <= j < i ==> !k.has(#[trigger] s@[j]),
        decreases s.len() - i,
    {
        if k.test(s[i]) {
            return Some(i);
        }
        i += 1;
    }
    None
}

/// The index of the last character in `k`, if there is one.
pub fn rfind(s: &[char], k: CharClass) -> (r: Option<usize>)
    ensures
        r matches Some(i) ==> i < s@.len() && i == last_index(s@, k) && k.has(s@[i as int]),
        r is None ==> last_index(s@, k) == -1,
        r is Some <==> has_any(s@, k),
{
    let mut i: usize = s.len();
    while i > 0
        invariant
            i <= s.len(),
            index_before(s@, k, s@.len() as int) == index_before(s@, k, i as int),
            forall|j: int| i <= j < s@.len() ==> !k.has(#[trigger] s@[j]),
        decreases i,
    {
        if k.test(s[i - 1]) {
            return Some(i - 1);
        }
        i -= 1;
    }
    None
}

/// Tests whether some character is in `k`.
pub fn contains_any(s: &[char], k: CharClass) -> (r: bool)
    ensures
        r == has_any(s@, k),
{
    find(s, k).is_some()
}

/// Tests whether every character is in `k`.
pub fn contains_only(s: &[char], k: CharClass) -> (r: bool)
    ensures
        r == has_only(s@, k),
{
    let mut i: usize = 0;
    while i < s.len()
        invariant
            i <= s.len(),
            forall|j: int| 0 <= j < i ==> k.has(#[trigger] s@[j]),
        decreases s.len() - i,
    {
        if !k.test(s[i]) {
            return false;
        }
        i += 1;
    }
    true
}

/// Drops the leading characters in `k`.
pub fn trim_start(s: &[char], k: CharClass) -> (r: &[char])
    ensures
        r@ == without_leading(s@, k),
{
    let mut i: usize = 0;
    while i < s.len() && k.test(s[i])
        invariant
            i <= s.len(),
            past_from(s@, k, 0) == past_from(s@, k, i as int),
        decreases s.len() - i,
    {
        i += 1;
    }
    slice_subrange(s, i, s.len())
}

/// Drops the trailing characters in `k`.
pub fn trim_end(s: &[char], k: CharClass) -> (r: &[char])
    ensures
        r@ == without_trailing(s@, k),
{
    let mut i: usize = s.len();
    while i > 0 && k.test(s[i - 1])
        invariant
            i <= s.len(),
            end_before(s@, k, s@.len() as int) == end_before(s@, k, i as int),
        decreases i,
    {
        i -= 1;
    }
    slice_subrange(s, 0, i)
}

/// Drops the characters in `k` at both ends.
pub fn trim(s: &[char], k: CharClass) -> (r: &[char])
    ensures
        r@ == trimmed(s@, k),
{
    trim_end(trim_start(s, k), k)
}

// ---------------------------------------------------------------------------
// Comparing

/// Tests two texts for equality.
pub fn same_text(a: &[char], b: &[char]) -> (r: bool)
    ensures
        r == (a@ == b@),
{
    if a.len() != b.len() {
        return false;
    }
    let mut i: usize = 0;
    while i < a.len()
        invariant
            i <= a.len(),
            a.len() == b.len(),
            forall|j: int| 0 <= j < i ==> a@[j] == b@[j],
        decreases a.len() - i,
    {
        if a[i] != b[i] {
            return false;
        }
        i += 1;
    }
    assert(a@ =~= b@);
    true
}

/// Tests whether a text is the given string.
pub fn is_text(a: &[char], b: &str) -> (r: bool)
    ensures
        r == (a@ == b@),
{
    let b = chars_of(b);
    same_text(a, b.as_slice())
}

/// Tests two strings for equality.
pub fn same_str(a: &str, b: &str) -> (r: bool)
    ensures
        r == (a@ == b@),
{
    let a = chars_of(a);
    is_text(a.as_slice(), b)
}

/// Tests whether `s` begins with `p`.
pub fn starts_with(s: &[char], p: &str) -> (r: bool)
    ensures
        r == p@.is_prefix_of(s@),
{
    let p = chars_of(p);
    if s.len() < p.len() {
        return false;
    }
    same_text(slice_subrange(s, 0, p.len()), p.as_slice())
}

/// Tests whether `s` ends with `p`.
pub fn ends_with(s: &[char], p: &[char]) -> (r: bool)
    ensures
        r == p@.is_suffix_of(s@),
{
    if s.len() < p.len() {
        return false;
    }
    same_text(slice_subrange(s, s.len() - p.len(), s.len()), p)
}

// ---------------------------------------------------------------------------
// Substrings

/// Whether `pat` stands in `s` at index `i`.
pub open spec fn occurs_at(s: Seq<char>, pat: Seq<char>, i: int) -> bool {
    0 <= i && i + pat.len() <= s.len() && s.subrange(i, i + pat.len()) == pat
}

/// The least index at or after `i` where `pat` stands in `s`.
pub open spec fn find_from(s: Seq<char>, pat: Seq<char>, i: int) -> Option<int>
    decreases s.len() - i,
{
    if i >= s.len() || i + pat.len() > s.len() {
        None
    } else if occurs_at(s, pat, i) {
        Some(i)
    } else {
        find_from(s, pat, i + 1)
    }
}

/// The greatest index at or below `i` where `pat` stands in `s`.
pub open spec fn rfind_from(s: Seq<char>, pat: Seq<char>, i: int) -> Option<int>
    decreases i + 1,
{
    if i < 0 {
        None
    } else if occurs_at(s, pat, i) {
        Some(i)
    } else {
        rfind_from(s, pat, i - 1)
    }
}

/// The first place where the nonempty `pat` stands in `s`.
pub open spec fn first_occurrence(s: Seq<char>, pat: Seq<char>) -> Option<int> {
    find_from(s, pat, 0)
}

/// The last place where `pat` stands in `s`.
pub open spec fn last_occurrence(s: Seq<char>, pat: Seq<char>) -> Option<int> {
    rfind_from(s, pat, s.len() - pat.len())
}

/// Whether the nonempty `pat` stands somewhere in `s`.
pub open spec fn has_substring(s: Seq<char>, pat: Seq<char>) -> bool {
    exists|i: int| occurs_at(s, pat, i)
}

fn matches_at(s: &[char], pat: &[char], i: usize) -> (r: bool)
    requires
        i + pat@.len() <= s@.len(),
    ensures
        r == occurs_at(s@, pat@, i as int),
{
    let n: usize = s.len();
    assert(i + pat@.len() <= n);
    same_text(slice_subrange(s, i, i + pat.len()), pat)
}

/// Finds the first place where `pat` stands in `s`.
pub fn find_text(s: &[char], pat: &str) -> (r: Option<usize>)
    requires
        pat@.len() > 0,
    ensures
        r is Some <==> has_substring(s@, pat@),
        match r {
            Some(i) => first_occurrence(s@, pat@) == Some(i as int) && occurs_at(
                s@,
                pat@,
                i as int,
            ),
            None => first_occurrence(s@, pat@) is None,
        },
{
    let p = chars_of(pat);
    let mut i: usize = 0;
    if s.len() < p.len() {
        return None;
    }
    while i <= s.len() - p.len()
        invariant
            p@ == pat@,
            i <= s.len(),
            0 < pat@.len() <= s@.len(),
            find_from(s@, pat@, 0) == find_from(s@, pat@, i as int),
            forall|j: int| 0 <= j < i ==> !occurs_at(s@, pat@, j),
        decreases s.len() - i,
    {
        if matches_at(s, p.as_slice(), i) {
            return Some(i);
        }
        i += 1;
    }
    None
}

/// Finds the last place where `pat` stands in `s`.
pub fn rfind_text(s: &[char], pat: &str) -> (r: Option<usize>)
    ensures
        match r {
            Some(i) => last_occurrence(s@, pat@) == Some(i as int) && occurs_at(
                s@,
                pat@,
                i as int,
            ),
            None => last_occurrence(s@, pat@) is None,
        },
{
    let p = chars_of(pat);
    if s.len() < p.len() {
        return None;
    }
    let mut i: usize = s.len() - p.len();
    loop
        invariant
            p@ == pat@,
            i + pat@.len() <= s@.len(),
            rfind_from(s@, pat@, s@.len() - pat@.len()) == rfind_from(s@, pat@, i as int),
        decreases i,
    {
        if matches_at(s, p.as_slice(), i) {
            return Some(i);
        }
        if i == 0 {
            assert(rfind_from(s@, pat@, -1) is None);
            return None;
        }
        i -= 1;
    }
}

// ---------------------------------------------------------------------------
// Case

/// The ASCII lowercase form of a character; other characters are unchanged.
pub open spec fn ascii_lower(c: char) -> char {
    if 'A' <= c <= 'Z' {
        ((c as u8) + 32) as u8 as char
    } else {
        c
    }
}

/// The text with its ASCII letters in lowercase.
pub open spec fn lowered(s: Seq<char>) -> Seq<char> {
    s.map_values(|c: char| ascii_lower(c))
}

/// Whether no character is an ASCII capital.
pub open spec fn is_lower(s: Seq<char>) -> bool {
    forall|i: int| 0 <= i < s.len() ==> !('A' <= #[trigger] s[i] <= 'Z')
}

/// Lowercasing leaves no ASCII capital, and leaves a text without one alone.
pub proof fn lemma_lowered(s: Seq<char>)
    ensures
        is_lower(lowered(s)),
        lowered(s).len() == s.len(),
        is_lower(s) ==> lowered(s) == s,
        lowered(lowered(s)) == lowered(s),
{
    if is_lower(s) {
        assert(lowered(s) =~= s);
    }
    assert(lowered(lowered(s)) =~= lowered(s));
}

/// Lowercases the ASCII letters of a text.
pub fn to_lower(s: &[char]) -> (r: Vec<char>)
    ensures
        r@ == lowered(s@),
{
    let mut out: Vec<char> = Vec::new();
    let mut i: usize = 0;
    while i < s.len()
        invariant
            i <= s.len(),
            out@ == lowered(s@.take(i as int)),
        decreases s.len() - i,
    {
        let c = s[i];
        if 'A' <= c && c <= 'Z' {
            let b: u8 = c as u8;
            out.push((b + 32) as char);
        } else {
            out.push(c);
        }
        i += 1;
        assert(out@ =~= lowered(s@.take(i as int)));
    }
    assert(s@.take(i as int) =~= s@);
    out
}

// ---------------------------------------------------------------------------
// Splitting and joining

/// The strings of a list, as character sequences.
pub open spec fn texts(v: Seq<String>) -> Seq<Seq<char>> {
    v.map_values(|s: String| s@)
}

/// The text of an optional string.
pub open spec fn opt_text(o: Option<String>) -> Option<Seq<char>> {
    match o {
        Some(s) => Some(s@),
        None => None,
    }
}

/// Copies an optional string.
pub fn copy_opt(o: &Option<String>) -> (r: Option<String>)
    ensures
        opt_text(r) == opt_text(*o),
{
    match o {
        Some(s) => Some(s.clone()),
        None => None,
    }
}

/// Copies a list of strings.
pub fn copy_texts(v: &Vec<String>) -> (r: Vec<String>)
    ensures
        texts(r@) == texts(v@),
{
    let mut out: Vec<String> = Vec::new();
    let mut i: usize = 0;
    while i < v.len()
        invariant
            i <= v@.len(),
            texts(out@) == texts(v@).take(i as int),
        decreases v.len() - i,
    {
        let ghost before = texts(out@);
        let copy = v[i].clone();
        out.push(copy);
        assert(texts(out@) =~= before.push(texts(v@)[i as int]));
        i += 1;
        assert(texts(out@) =~= texts(v@).take(i as int));
    }
    assert(texts(v@).take(i as int) =~= texts(v@));
    out
}

/// The text of an optional literal.
pub open spec fn opt_literal(o: Option<&'static str>) -> Option<Seq<char>> {
    match o {
        Some(s) => Some(s@),
        None => None,
    }
}

/// The texts of a list, as character sequences.
pub open spec fn char_texts(v: Seq<Vec<char>>) -> Seq<Seq<char>> {
    v.map_values(|s: Vec<char>| s@)
}

/// The pieces of `s` from `i` on that characters in `k` separate.
pub open spec fn split_from(s: Seq<char>, k: CharClass, i: int) -> Seq<Seq<char>>
    decreases s.len() - i,
    when 0 <= i <= s.len()
{
    let j = index_from(s, k, i);
    proof {
        lemma_index_from(s, k, i);
    }
    if j >= s.len() {
        seq![s.subrange(i, s.len() as int)]
    } else {
        seq![s.subrange(i, j)] + split_from(s, k, j + 1)
    }
}

/// The pieces of `s` that characters in `k` separate. There is always at least one.
pub open spec fn pieces(s: Seq<char>, k: CharClass) -> Seq<Seq<char>> {
    split_from(s, k, 0)
}

/// No piece holds a separator, and there is at least one piece.
pub proof fn lemma_split_from(s: Seq<char>, k: CharClass, i: int)
    requires
        0 <= i <= s.len(),
    ensures
        split_from(s, k, i).len() >= 1,
        forall|n: int|
            0 <= n < split_from(s, k, i).len() ==> !has_any(#[trigger] split_from(s, k, i)[n], k),
    decreases s.len() - i,
{
    lemma_index_from(s, k, i);
    let j = index_from(s, k, i);
    if j < s.len() {
        lemma_split_from(s, k, j + 1);
    }
}

/// Where every piece is made of characters in `k`, so is the text, up to separators.
pub proof fn lemma_covered_by_pieces(s: Seq<char>, sep: CharClass, k: CharClass, i: int)
    requires
        0 <= i <= s.len(),
        forall|n: int|
            0 <= n < split_from(s, sep, i).len() ==> has_only(#[trigger] split_from(s, sep, i)[n], k),
    ensures
        forall|j: int| i <= j < s.len() ==> sep.has(#[trigger] s[j]) || k.has(s[j]),
    decreases s.len() - i,
{
    lemma_index_from(s, sep, i);
    let j = index_from(s, sep, i);
    let all = split_from(s, sep, i);
    assert(has_only(all[0], k));
    assert forall|m: int| i <= m < j implies k.has(#[trigger] s[m]) by {
        assert(all[0][m - i] == s[m]);
    }
    if j < s.len() {
        let rest = split_from(s, sep, j + 1);
        assert forall|n: int| 0 <= n < rest.len() implies has_only(#[trigger] rest[n], k) by {
            assert(all[n + 1] == rest[n]);
        }
        lemma_covered_by_pieces(s, sep, k, j + 1);
    }
}

/// The place of the first character in `k` is determined by what precedes it.
pub proof fn lemma_index_is(s: Seq<char>, k: CharClass, i: int, j: int)
    requires
        0 <= i <= j <= s.len(),
        forall|m: int| i <= m < j ==> !k.has(#[trigger] s[m]),
        j < s.len() ==> k.has(s[j]),
    ensures
        index_from(s, k, i) == j,
    decreases j - i,
{
    if i < j {
        lemma_index_is(s, k, i + 1, j);
    }
}

/// The place of the last character in `k` is determined by what follows it.
pub proof fn lemma_last_index_is(s: Seq<char>, k: CharClass, i: int, j: int)
    requires
        -1 <= j < i <= s.len(),
        forall|m: int| j < m < i ==> !k.has(#[trigger] s[m]),
        j >= 0 ==> k.has(s[j]),
    ensures
        index_before(s, k, i) == j,
    decreases i - j,
{
    if j < i - 1 {
        lemma_last_index_is(s, k, i - 1, j);
    }
}

/// A text without separators is its own only piece.
pub proof fn lemma_one_piece(s: Seq<char>, k: CharClass)
    requires
        !has_any(s, k),
    ensures
        pieces(s, k) == seq![s],
{
    lemma_index_is(s, k, 0, s.len() as int);
    assert(s.subrange(0, s.len() as int) =~= s);
}

/// The pieces of a text, a separator and a text without separators.
pub proof fn lemma_pieces_snoc(x: Seq<char>, c: char, y: Seq<char>, k: CharClass, i: int)
    requires
        0 <= i <= x.len(),
        k.has(c),
        !has_any(y, k),
    ensures
        split_from(x + seq![c] + y, k, i) == split_from(x, k, i).push(y),
    decreases x.len() - i,
{
    let s = x + seq![c] + y;
    lemma_index_from(x, k, i);
    let j = index_from(x, k, i);
    assert forall|m: int| i <= m < j implies !k.has(#[trigger] s[m]) by {
        assert(s[m] == x[m]);
    }
    lemma_index_is(s, k, i, j);
    assert(s.subrange(i, j) =~= x.subrange(i, j));
    if j < x.len() {
        lemma_pieces_snoc(x, c, y, k, j + 1);
        assert(split_from(s, k, i) =~= split_from(x, k, i).push(y));
    } else {
        assert forall|m: int| j + 1 <= m < s.len() implies !k.has(#[trigger] s[m]) by {
            assert(s[m] == y[m - j - 1]);
        }
        lemma_index_is(s, k, j + 1, s.len() as int);
        assert(s.subrange(j + 1, s.len() as int) =~= y);
        assert(split_from(s, k, j + 1) =~= seq![y]);
        assert(split_from(s, k, i) =~= split_from(x, k, i).push(y));
    }
}

/// The first piece begins where the text begins, and the last piece ends where it ends.
pub proof fn lemma_outer_pieces(s: Seq<char>, k: CharClass, i: int)
    requires
        0 <= i <= s.len(),
    ensures
        split_from(s, k, i).len() >= 1,
        split_from(s, k, i).last().is_suffix_of(s),
        split_from(s, k, i)[0].len() > 0 ==> split_from(s, k, i)[0][0] == s[i],
        i < s.len() && !k.has(s[i]) ==> split_from(s, k, i)[0].len() > 0,
    decreases s.len() - i,
{
    lemma_index_from(s, k, i);
    let j = index_from(s, k, i);
    let all = split_from(s, k, i);
    if j < s.len() {
        lemma_outer_pieces(s, k, j + 1);
        let rest = split_from(s, k, j + 1);
        assert(all.last() == rest.last());
    } else {
        let last = s.subrange(i, s.len() as int);
        assert(s.subrange(s.len() - last.len(), s.len() as int) =~= last);
    }
}

/// The first place where a pattern stands is determined by what precedes it.
pub proof fn lemma_found_at(s: Seq<char>, pat: Seq<char>, i: int, j: int)
    requires
        pat.len() > 0,
        0 <= i <= j,
        forall|m: int| i <= m < j ==> !#[trigger] occurs_at(s, pat, m),
        occurs_at(s, pat, j),
    ensures
        find_from(s, pat, i) == Some(j),
    decreases j - i,
{
    if i < j {
        assert(!occurs_at(s, pat, i));
        lemma_found_at(s, pat, i + 1, j);
    }
}

/// A pattern that stands nowhere is not found.
pub proof fn lemma_not_found(s: Seq<char>, pat: Seq<char>, i: int)
    requires
        0 <= i,
        forall|m: int| i <= m ==> !#[trigger] occurs_at(s, pat, m),
    ensures
        find_from(s, pat, i) is None,
    decreases s.len() - i,
{
    if i < s.len() && i + pat.len() <= s.len() {
        assert(!occurs_at(s, pat, i));
        lemma_not_found(s, pat, i + 1);
    }
}

/// The last place where a pattern stands is determined by what follows it.
pub proof fn lemma_found_last(s: Seq<char>, pat: Seq<char>, i: int, j: int)
    requires
        0 <= j <= i,
        forall|m: int| j < m <= i ==> !#[trigger] occurs_at(s, pat, m),
        occurs_at(s, pat, j),
    ensures
        rfind_from(s, pat, i) == Some(j),
    decreases i - j,
{
    if j < i {
        assert(!occurs_at(s, pat, i));
        lemma_found_last(s, pat, i - 1, j);
    }
}

/// Splits a text at the characters in `k`.
pub fn split(s: &[char], k: CharClass) -> (r: Vec<Vec<char>>)
    ensures
        char_texts(r@) == pieces(s@, k),
        r@.len() >= 1,
{
    let mut out: Vec<Vec<char>> = Vec::new();
    let mut start: usize = 0;
    let mut i: usize = 0;
    while i < s.len()
        invariant
            start <= i <= s.len(),
            index_from(s@, k, start as int) == index_from(s@, k, i as int),
            split_from(s@, k, 0) == char_texts(out@) + split_from(s@, k, start as int),
        decreases s.len() - i,
    {
        if k.test(s[i]) {
            let ghost before = char_texts(out@);
            let piece = copy(slice_subrange(s, start, i));
            out.push(piece);
            assert(char_texts(out@) =~= before.push(s@.subrange(start as int, i as int)));
            start = i + 1;
            assert(split_from(s@, k, 0) =~= char_texts(out@) + split_from(s@, k, start as int));
        }
        i += 1;
    }
    let ghost before = char_texts(out@);
    let piece = copy(slice_subrange(s, start, s.len()));
    out.push(piece);
    assert(char_texts(out@) =~= before.push(s@.subrange(start as int, s@.len() as int)));
    assert(char_texts(out@) =~= pieces(s@, k));
    out
}

/// Copies a text.
pub fn copy(s: &[char]) -> (r: Vec<char>)
    ensures
        r@ == s@,
{
    vstd::slice::slice_to_vec(s)
}

/// The lines of a text: pieces ended by a line feed, each without one carriage
/// return before that line feed, and the rest of the text when it is not empty.
pub open spec fn lines(s: Seq<char>) -> Seq<Seq<char>> {
    let parts = pieces(s, CharClass::Is('\n'));
    let ended = parts.drop_last().map_values(|t: Seq<char>| without_return(t));
    if parts.last().len() == 0 {
        ended
    } else {
        ended.push(parts.last())
    }
}

/// A line without a carriage return at its end.
pub open spec fn without_return(t: Seq<char>) -> Seq<char> {
    if t.len() > 0 && t.last() == '\r' {
        t.drop_last()
    } else {
        t
    }
}

/// Splits a text into lines.
pub fn lines_of(s: &[char]) -> (r: Vec<Vec<char>>)
    ensures
        char_texts(r@) == lines(s@),
{
    let parts = split(s, CharClass::Is('\n'));
    let ghost all = pieces(s@, CharClass::Is('\n'));
    let n: usize = parts.len();
    let mut out: Vec<Vec<char>> = Vec::new();
    let mut i: usize = 0;
    assert(char_texts(out@) =~= all.take(0).map_values(|t: Seq<char>| without_return(t)));
    while i < n - 1
        invariant
            n == parts@.len(),
            1 <= n,
            i <= n - 1,
            char_texts(parts@) == all,
            char_texts(out@) == all.take(i as int).map_values(|t: Seq<char>| without_return(t)),
        decreases n - i,
    {
        let ghost before = char_texts(out@);
        let part = &parts[i];
        assert(part@ == all[i as int]);
        let m: usize = part.len();
        let line = if m > 0 && part[m - 1] == '\r' {
            copy(slice_subrange(part.as_slice(), 0, m - 1))
        } else {
            copy(part.as_slice())
        };
        assert(line@ =~= without_return(part@));
        out.push(line);
        i += 1;
        assert(char_texts(out@) =~= before.push(without_return(part@)));
        assert(char_texts(out@) =~= all.take(i as int).map_values(
            |t: Seq<char>| without_return(t),
        ));
    }
    assert(all.take(n - 1) =~= all.drop_last());
    let last = &parts[n - 1];
    assert(last@ == all.last());
    if last.len() > 0 {
        let ghost before = char_texts(out@);
        out.push(copy(last.as_slice()));
        assert(char_texts(out@) =~= before.push(last@));
    }
    out
}

/// The texts put together with `sep` between each two.
pub open spec fn joined(parts: Seq<Seq<char>>, sep: Seq<char>) -> Seq<char>
    decreases parts.len(),
{
    if parts.len() == 0 {
        Seq::empty()
    } else if parts.len() == 1 {
        parts[0]
    } else {
        joined(parts.drop_last(), sep) + sep + parts.last()
    }
}

/// The pieces of a text put together again are the text.
pub proof fn lemma_pieces_joined(s: Seq<char>, c: char, i: int)
    requires
        0 <= i <= s.len(),
    ensures
        joined(split_from(s, CharClass::Is(c), i), seq![c]) == s.skip(i),
    decreases s.len() - i,
{
    let k = CharClass::Is(c);
    lemma_index_from(s, k, i);
    let j = index_from(s, k, i);
    if j < s.len() {
        let rest = split_from(s, k, j + 1);
        lemma_pieces_joined(s, c, j + 1);
        lemma_split_from(s, k, j + 1);
        lemma_joined_cons(s.subrange(i, j), rest, seq![c]);
        assert(s.subrange(i, j) + seq![c] + s.skip(j + 1) =~= s.skip(i));
    } else {
        assert(s.subrange(i, j) =~= s.skip(i));
    }
}

proof fn lemma_joined_cons(first: Seq<char>, rest: Seq<Seq<char>>, sep: Seq<char>)
    requires
        rest.len() > 0,
    ensures
        joined(seq![first] + rest, sep) == first + sep + joined(rest, sep),
    decreases rest.len(),
{
    let all = seq![first] + rest;
    assert(all.drop_last() =~= seq![first] + rest.drop_last());
    assert(all.last() == rest.last());
    if rest.len() > 1 {
        lemma_joined_cons(first, rest.drop_last(), sep);
        assert(first + sep + joined(rest.drop_last(), sep) + sep + rest.last() =~= first + sep
            + joined(rest, sep));
    } else {
        assert(all.drop_last() =~= seq![first]);
        assert(joined(seq![first], sep) == first);
        assert(joined(rest, sep) == rest[0]);
    }
}

/// Puts strings together with `sep` between each two.
pub fn join(parts: &Vec<String>, sep: &str) -> (r: String)
    ensures
        r@ == joined(texts(parts@), sep@),
{
    let mut out = String::new();
    let mut i: usize = 0;
    while i < parts.len()
        invariant
            i <= parts@.len(),
            out@ == joined(texts(parts@).take(i as int), sep@),
        decreases parts.len() - i,
    {
        let ghost before = texts(parts@).take(i as int);
        let ghost after = texts(parts@).take(i + 1);
        if i > 0 {
            out.append(sep);
        }
        out.append(parts[i].as_str());
        assert(after.drop_last() =~= before);
        assert(after.last() == parts@[i as int]@);
        i += 1;
        assert(out@ =~= joined(after, sep@));
    }
    assert(texts(parts@).take(i as int) =~= texts(parts@));
    out
}

/// Puts two strings together.
pub fn concat(a: &str, b: &str) -> (r: String)
    ensures
        r@ == a@ + b@,
{
    let mut out = String::new();
    out.append(a);
    out.append(b);
    assert(out@ =~= a@ + b@);
    out
}

/// Appends a text to a string.
pub fn append_text(out: &mut String, s: &[char])
    ensures
        final(out)@ == old(out)@ + s@,
{
    let mut i: usize = 0;
    while i < s.len()
        invariant
            i <= s.len(),
            out@ == old(out)@ + s@.take(i as int),
        decreases s.len() - i,
    {
        out.push(s[i]);
        i += 1;
        assert(out@ =~= old(out)@ + s@.take(i as int));
    }
    assert(s@.take(i as int) =~= s@);
}

// ---------------------------------------------------------------------------
// Laws

/// Texts without a separator are the pieces of what they make when they are put together
/// with that separator between each two.
pub proof fn law_joined_texts_are_split_again(v: Seq<Seq<char>>, c: char)
    requires
        v.len() >= 1,
        forall|i: int| 0 <= i < v.len() ==> !(#[trigger] v[i]).contains(c),
    ensures
        pieces(joined(v, seq![c]), CharClass::Is(c)) == v,
    decreases v.len(),
{
    let k = CharClass::Is(c);
    let last = v[v.len() - 1];
    assert(!has_any(last, k)) by {
        if has_any(last, k) {
            let i = choose|i: int| 0 <= i < last.len() && k.has(#[trigger] last[i]);
            assert(last.contains(last[i]));
        }
    }
    if v.len() == 1 {
        lemma_one_piece(last, k);
        assert(v =~= seq![last]);
    } else {
        let w = v.drop_last();
        assert forall|i: int| 0 <= i < w.len() implies !(#[trigger] w[i]).contains(c) by {
            assert(w[i] == v[i]);
        }
        law_joined_texts_are_split_again(w, c);
        lemma_pieces_snoc(joined(w, seq![c]), c, last, k, 0);
        assert(w.push(last) =~= v);
    }
}

/// Lines that are put together with line feeds are the lines of the text, whether or not the
/// last one is ended, and a carriage return before a line feed belongs to no line.
pub proof fn law_lines_are_parted_by_line_feeds(v: Seq<Seq<char>>)
    requires
        v.len() >= 1,
        v.last().len() > 0,
        forall|i: int| 0 <= i < v.len() ==> !(#[trigger] v[i]).contains('\n'),
        forall|i: int| 0 <= i < v.len() ==> !(#[trigger] v[i]).contains('\r'),
    ensures
        lines(joined(v, seq!['\n'])) == v,
        lines(joined(v, seq!['\n']).push('\n')) == v,
        lines(joined(v, seq!['\n']).push('\r').push('\n')) == v,
        lines(Seq::empty()) == Seq::<Seq<char>>::empty(),
{
    let k = CharClass::Is('\n');
    let t = joined(v, seq!['\n']);
    law_joined_texts_are_split_again(v, '\n');
    assert forall|i: int| 0 <= i < v.len() implies without_return(#[trigger] v[i]) == v[i] by {
        if v[i].len() > 0 {
            assert(v[i].contains(v[i].last())) by {
                assert(v[i][v[i].len() - 1] == v[i].last());
            }
        }
    }
    assert(lines(t) =~= v);
    let none = Seq::<char>::empty();
    lemma_pieces_snoc(t, '\n', none, k, 0);
    assert(t + seq!['\n'] + none =~= t.push('\n'));
    assert(v.push(none).drop_last() =~= v);
    assert(lines(t.push('\n')) =~= v);
    let w = v.drop_last().push(v.last().push('\r'));
    assert forall|i: int| 0 <= i < w.len() implies !(#[trigger] w[i]).contains('\n') by {
        if i < v.len() - 1 {
            assert(w[i] == v[i]);
        } else {
            let last = v[v.len() - 1];
            if w[i].contains('\n') {
                let j = choose|j: int| 0 <= j < w[i].len() && w[i][j] == '\n';
                assert(last[j] == '\n');
                assert(last.contains('\n'));
            }
        }
    }
    law_joined_texts_are_split_again(w, '\n');
    let u = joined(w, seq!['\n']);
    assert(u =~= t.push('\r')) by {
        assert(w.drop_last() =~= v.drop_last());
    }
    lemma_pieces_snoc(u, '\n', none, k, 0);
    assert(u + seq!['\n'] + none =~= u.push('\n'));
    assert(w.push(none).drop_last() =~= w);
    assert forall|i: int| 0 <= i < w.len() implies without_return(#[trigger] w[i]) == v[i] by {
        if i < v.len() - 1 {
            assert(w[i] == v[i]);
        } else {
            assert(w[i].drop_last() =~= v[i]);
        }
    }
    assert(lines(u.push('\n')) =~= v);
    lemma_one_piece(none, k);
    assert(lines(none) =~= Seq::empty());
}

/// Trimming takes away exactly what is asked for at the edges: what is put around a text that
/// does not begin or end with it is gone again.
pub proof fn law_trimming_undoes_padding(a: Seq<char>, t: Seq<char>, b: Seq<char>, k: CharClass)
    requires
        has_only(a, k),
        has_only(b, k),
        t.len() > 0,
        !k.has(t[0]),
        !k.has(t.last()),
    ensures
        trimmed(a + t + b, k) == t,
        without_leading(a + t, k) == t,
        without_trailing(t + b, k) == t,
{
    lemma_leading_gone(a, t + b, k);
    lemma_leading_gone(a, t, k);
    assert(a + (t + b) =~= a + t + b);
    let s = t + b;
    let n = s.len() as int;
    lemma_end_before(s, k, n);
    let e = end_before(s, k, n);
    assert(e >= t.len()) by {
        if e < t.len() {
            assert(k.has(s[t.len() - 1]));
        }
    }
    assert(e <= t.len()) by {
        if e > t.len() {
            assert(s[e - 1] == b[e - 1 - t.len()]);
        }
    }
    assert(s.subrange(0, e) =~= t);
}

proof fn lemma_leading_gone(a: Seq<char>, t: Seq<char>, k: CharClass)
    requires
        has_only(a, k),
        t.len() > 0,
        !k.has(t[0]),
    ensures
        without_leading(a + t, k) == t,
{
    let s = a + t;
    lemma_past_from(s, k, 0);
    let p = past_from(s, k, 0);
    assert(p >= a.len()) by {
        if p < a.len() {
            assert(s[p] == a[p]);
        }
    }
    assert(p <= a.len()) by {
        if p > a.len() {
            assert(k.has(s[a.len() as int]));
        }
    }
    assert(s.subrange(p, s.len() as int) =~= t);
}

/// Lowercasing turns each of the 26 capitals into its small letter, and changes no other
/// character.
pub proof fn law_lowercase_is_letter_by_letter(s: Seq<char>, i: int)
    requires
        0 <= i < s.len(),
    ensures
        lowered(s).len() == s.len(),
        'A' <= s[i] <= 'Z' ==> lowered(s)[i] as int == s[i] as int + 32,
        !('A' <= s[i] <= 'Z') ==> lowered(s)[i] == s[i],
{
    let c = s[i];
    if 'A' <= c <= 'Z' {
        let b = c as u8;
        assert(65 <= b <= 90);
    }
}

/// No piece is empty exactly if separators stand apart and not at an edge.
pub proof fn lemma_no_empty_piece(s: Seq<char>, k: CharClass, i: int)
    requires
        0 <= i <= s.len(),
        forall|n: int|
            0 <= n < split_from(s, k, i).len() ==> (#[trigger] split_from(s, k, i)[n]).len() > 0,
    ensures
        forall|j: int|
            i <= j < s.len() && k.has(#[trigger] s[j]) ==> i < j < s.len() - 1 && !k.has(s[j + 1]),
    decreases s.len() - i,
{
    let j = index_from(s, k, i);
    lemma_index_from(s, k, i);
    let all = split_from(s, k, i);
    if j < s.len() {
        let rest = split_from(s, k, j + 1);
        assert(all[0].len() > 0);
        assert forall|n: int| 0 <= n < rest.len() implies (#[trigger] rest[n]).len() > 0 by {
            assert(all[n + 1] == rest[n]);
        }
        lemma_no_empty_piece(s, k, j + 1);
        lemma_split_from(s, k, j + 1);
        lemma_outer_pieces(s, k, j + 1);
        assert(rest[0].len() > 0);
        assert(j + 1 < s.len()) by {
            if j + 1 >= s.len() {
                assert(rest =~= seq![s.subrange(j + 1, s.len() as int)]);
            }
        }
        assert(!k.has(s[j + 1])) by {
            if k.has(s[j + 1]) {
                assert(index_from(s, k, j + 1) == j + 1);
                assert(rest[0] =~= s.subrange(j + 1, j + 1));
            }
        }
        assert forall|m: int| i <= m < s.len() && k.has(#[trigger] s[m]) implies i < m < s.len() - 1
            && !k.has(s[m + 1]) by {
            if m > j {
                assert(m >= j + 1);
            } else {
                assert(m == j);
                assert(all[0] == s.subrange(i, j));
            }
        }
    }
}

/// Which characters the classes hold.
pub proof fn law_classes_hold_their_characters(c: char)
    ensures
        CharClass::AuthorityEnd.has(c) <==> "/?#"@.contains(c),
        CharClass::Surrounding.has(c) <==> "\"'`<>(){}"@.contains(c),
        CharClass::TokenEdge.has(c) <==> "\"'`<>(){},;"@.contains(c),
        CharClass::ListSeparator.has(c) <==> c == ',' || CharClass::Whitespace.has(c),
        c <= '\u{7f}' ==> (CharClass::Whitespace.has(c) <==> "\t\n\u{b}\u{c}\r "@.contains(c)),
        CharClass::Letter.has(c) <==> 'a' <= c <= 'z' || 'A' <= c <= 'Z',
        CharClass::Digit.has(c) <==> '0' <= c <= '9',
        CharClass::HexDigit.has(c) <==> '0' <= c <= '9' || 'a' <= c <= 'f' || 'A' <= c <= 'F',
        CharClass::SchemeChar.has(c) <==> CharClass::Letter.has(c) || CharClass::Digit.has(c)
            || "+.-"@.contains(c),
        CharClass::LabelEdge.has(c) <==> 'a' <= c <= 'z' || '0' <= c <= '9',
        CharClass::LabelInside.has(c) <==> CharClass::LabelEdge.has(c) || c == '-',
        c <= '\u{7f}' ==> (CharClass::NotCandidateStart.has(c) <==> !(CharClass::Letter.has(c)
            || CharClass::Digit.has(c) || "[*:"@.contains(c))),
        c <= '\u{7f}' ==> (CharClass::NotCandidateEnd.has(c) <==> !(CharClass::Letter.has(c)
            || CharClass::Digit.has(c) || "].*"@.contains(c))),
{
    reveal_strlit("/?#");
    reveal_strlit("\"'`<>(){}");
    reveal_strlit("\"'`<>(){},;");
    reveal_strlit("\t\n\u{b}\u{c}\r ");
    reveal_strlit("+.-");
    reveal_strlit("[*:");
    reveal_strlit("].*");
    let a = "/?#"@;
    assert(a[0] == '/' && a[1] == '?' && a[2] == '#');
    let b = "\"'`<>(){}"@;
    assert(b[0] == '"' && b[1] == '\'' && b[2] == '`' && b[3] == '<' && b[4] == '>' && b[5] == '('
        && b[6] == ')' && b[7] == '{' && b[8] == '}');
    let d = "\"'`<>(){},;"@;
    assert(d[0] == '"' && d[1] == '\'' && d[2] == '`' && d[3] == '<' && d[4] == '>' && d[5] == '('
        && d[6] == ')' && d[7] == '{' && d[8] == '}' && d[9] == ',' && d[10] == ';');
    let w = "\t\n\u{b}\u{c}\r "@;
    assert(w[0] == '\t' && w[1] == '\n' && w[2] == '\u{b}' && w[3] == '\u{c}' && w[4] == '\r'
        && w[5] == ' ');
    let e = "+.-"@;
    assert(e[0] == '+' && e[1] == '.' && e[2] == '-');
    let f = "[*:"@;
    assert(f[0] == '[' && f[1] == '*' && f[2] == ':');
    let g = "].*"@;
    assert(g[0] == ']' && g[1] == '.' && g[2] == '*');
}

} // verus!

//! IP addresses and socket addresses: values, text forms and order.

use vstd::prelude::*;
use vstd::slice::slice_subrange;

use crate::lists::all_added;
use crate::numbers::{
    decimal, decimal_of, hex, hex_number, hex_of, is_digit_below, law_digits_are_written_back,
    lemma_digits_len, lemma_number_of_digits, number, number_up_to,
};
use crate::text::{
    append_text, char_texts, chars_of, contains_only, find, find_text, first_index,
    first_occurrence, has_any, has_only, is_hex_digit, joined, law_joined_texts_are_split_again,
    lemma_covered_by_pieces, lemma_found_at, lemma_not_found, lemma_one_piece, lemma_pieces_joined,
    lemma_pieces_snoc, occurs_at, pieces, split, CharClass,
};

verus! {

/// An IP address, as the number that its bits make in network order.
#[derive(Clone, Copy, Debug, PartialEq, Eq, Hash, Structural)]
pub enum IpAddr {
    V4(u32),
    V6(u128),
}

/// An IP address with a port. `scope` is the zone of an IPv6 address, else 0.
#[derive(Clone, Copy, Debug, PartialEq, Eq, Hash, Structural)]
pub struct SocketAddr {
    pub ip: IpAddr,
    pub port: u16,
    pub scope: u32,
}

// ---------------------------------------------------------------------------
// IPv4

/// The number that one part of a dotted address stands for: one to three decimal
/// digits, without a leading zero, at most 255.
pub open spec fn octet(t: Seq<char>) -> Option<nat> {
    if 1 <= t.len() <= 3 && has_only(t, CharClass::Digit) && (t.len() == 1 || t[0] != '0')
        && number(t, 10) <= 255 {
        Some(number(t, 10))
    } else {
        None
    }
}

/// The IPv4 address that a text stands for: four octets between dots.
pub open spec fn v4_value(s: Seq<char>) -> Option<u32> {
    let p = pieces(s, CharClass::Is('.'));
    if p.len() != 4 {
        None
    } else {
        match (octet(p[0]), octet(p[1]), octet(p[2]), octet(p[3])) {
            (Some(a), Some(b), Some(c), Some(d)) => Some(
                (((a * 256 + b) * 256 + c) * 256 + d) as u32,
            ),
            _ => None,
        }
    }
}

/// The dotted form of an IPv4 address.
pub open spec fn v4_text(v: u32) -> Seq<char> {
    decimal((v / 16777216) as nat) + seq!['.'] + decimal((v / 65536 % 256) as nat) + seq!['.']
        + decimal((v / 256 % 256) as nat) + seq!['.'] + decimal((v % 256) as nat)
}

fn read_octet(t: &[char]) -> (r: Option<u32>)
    ensures
        match octet(t@) {
            Some(n) => r == Some(n as u32) && n <= 255,
            None => r is None,
        },
{
    let n: usize = t.len();
    if n < 1 || n > 3 || !contains_only(t, CharClass::Digit) || (n > 1 && t[0] == '0') {
        return None;
    }
    number_up_to(t, 255)
}

fn read_v4(s: &[char]) -> (r: Option<u32>)
    ensures
        r == v4_value(s@),
{
    let p = split(s, CharClass::Is('.'));
    let ghost g = pieces(s@, CharClass::Is('.'));
    assert(forall|i: int| 0 <= i < p@.len() ==> p@[i]@ == #[trigger] g[i]);
    if p.len() != 4 {
        return None;
    }
    let a = read_octet(p[0].as_slice());
    let b = read_octet(p[1].as_slice());
    let c = read_octet(p[2].as_slice());
    let d = read_octet(p[3].as_slice());
    assert(g[0] == p@[0]@ && g[1] == p@[1]@ && g[2] == p@[2]@ && g[3] == p@[3]@);
    match (a, b, c, d) {
        (Some(a), Some(b), Some(c), Some(d)) => Some(((a * 256 + b) * 256 + c) * 256 + d),
        _ => None,
    }
}

fn write_v4(v: u32) -> (r: String)
    ensures
        r@ == v4_text(v),
{
    let mut out = decimal_of((v / 16777216) as u128);
    out.push('.');
    out.append(decimal_of((v / 65536 % 256) as u128).as_str());
    out.push('.');
    out.append(decimal_of((v / 256 % 256) as u128).as_str());
    out.push('.');
    out.append(decimal_of((v % 256) as u128).as_str());
    assert(out@ =~= v4_text(v));
    out
}

// ---------------------------------------------------------------------------
// IPv6

/// The value of one hexadecimal group: one to four hexadecimal digits.
pub open spec fn hex_group(t: Seq<char>) -> Option<u16> {
    if 1 <= t.len() <= 4 && has_only(t, CharClass::HexDigit) {
        Some(number(t, 16) as u16)
    } else {
        None
    }
}

/// The values of hexadecimal groups, if every part is one.
pub open spec fn hex_groups(parts: Seq<Seq<char>>) -> Option<Seq<u16>>
    decreases parts.len(),
{
    if parts.len() == 0 {
        Some(Seq::empty())
    } else {
        match (hex_groups(parts.drop_last()), hex_group(parts.last())) {
            (Some(g), Some(x)) => Some(g.push(x)),
            _ => None,
        }
    }
}

/// The values of hexadecimal groups, the last part of which may be a dotted IPv4
/// address that stands for two groups.
pub open spec fn ending_groups(parts: Seq<Seq<char>>) -> Option<Seq<u16>> {
    if parts.len() > 0 && v4_value(parts.last()) is Some {
        let v = v4_value(parts.last())->0;
        match hex_groups(parts.drop_last()) {
            Some(g) => Some(g.push((v / 65536) as u16).push((v % 65536) as u16)),
            None => None,
        }
    } else {
        hex_groups(parts)
    }
}

/// The parts of a text between colons; an empty text has none.
pub open spec fn colon_parts(s: Seq<char>) -> Seq<Seq<char>> {
    if s.len() == 0 {
        Seq::empty()
    } else {
        pieces(s, CharClass::Is(':'))
    }
}

/// The number that groups of sixteen bits make.
pub open spec fn groups_value(g: Seq<u16>) -> nat
    decreases g.len(),
{
    if g.len() == 0 {
        0
    } else {
        groups_value(g.drop_last()) * 65536 + g.last() as nat
    }
}

/// The last `n` groups of sixteen bits of a number.
pub open spec fn value_groups(v: nat, n: nat) -> Seq<u16>
    decreases n,
{
    if n == 0 {
        Seq::empty()
    } else {
        value_groups(v / 65536, (n - 1) as nat).push((v % 65536) as u16)
    }
}

/// The eight groups that a text stands for. A `::` stands for one or more groups
/// of zeros.
pub open spec fn v6_groups(s: Seq<char>) -> Option<Seq<u16>> {
    match first_occurrence(s, seq![':', ':']) {
        None => match ending_groups(colon_parts(s)) {
            Some(g) => if g.len() == 8 {
                Some(g)
            } else {
                None
            },
            None => None,
        },
        Some(i) => match (hex_groups(colon_parts(s.take(i))), ending_groups(
            colon_parts(s.skip(i + 2)),
        )) {
            (Some(h), Some(t)) => if h.len() + t.len() <= 7 {
                Some(h + zeros((8 - h.len() - t.len()) as nat) + t)
            } else {
                None
            },
            _ => None,
        },
    }
}

/// `n` groups of zeros.
pub open spec fn zeros(n: nat) -> Seq<u16> {
    Seq::new(n, |i: int| 0u16)
}

/// The IPv6 address that a text stands for.
pub open spec fn v6_value(s: Seq<char>) -> Option<u128> {
    match v6_groups(s) {
        Some(g) => Some(groups_value(g) as u128),
        None => None,
    }
}

/// The number of zero groups from `i` on.
pub open spec fn zero_run(g: Seq<u16>, i: int) -> int
    decreases g.len() - i,
{
    if 0 <= i < g.len() && g[i] == 0 {
        1 + zero_run(g, i + 1)
    } else {
        0
    }
}

/// Where the longest run of zero groups at or after `i` starts, the first if
/// several are as long.
pub open spec fn longest_run(g: Seq<u16>, i: int) -> int
    decreases g.len() - i,
{
    if i >= g.len() {
        g.len() as int
    } else {
        let later = longest_run(g, i + 1);
        if zero_run(g, i) >= zero_run(g, later) {
            i
        } else {
            later
        }
    }
}

/// Groups in lowercase hexadecimal with a colon between each two.
pub open spec fn groups_text(g: Seq<u16>) -> Seq<char>
    decreases g.len(),
{
    if g.len() == 0 {
        Seq::empty()
    } else if g.len() == 1 {
        hex(g[0] as nat)
    } else {
        groups_text(g.drop_last()) + seq![':'] + hex(g.last() as nat)
    }
}

/// The shortest form of an IPv6 address: the first longest run of two or more zero
/// groups is written `::`, and an address that maps an IPv4 address shows it.
pub open spec fn v6_text(v: u128) -> Seq<char> {
    let g = value_groups(v as nat, 8);
    let i = longest_run(g, 0);
    let n = zero_run(g, i);
    if v / 4294967296 == 65535 {
        seq![':', ':', 'f', 'f', 'f', 'f', ':'] + v4_text((v % 4294967296) as u32)
    } else if n > 1 {
        groups_text(g.take(i)) + seq![':', ':'] + groups_text(g.skip(i + n))
    } else {
        groups_text(g)
    }
}

fn read_group(t: &[char]) -> (r: Option<u16>)
    ensures
        r == hex_group(t@),
{
    let n: usize = t.len();
    if n < 1 || n > 4 || !contains_only(t, CharClass::HexDigit) {
        return None;
    }
    Some(hex_number(t))
}

proof fn lemma_hex_groups_none(parts: Seq<Seq<char>>, i: int)
    requires
        0 <= i <= parts.len(),
        hex_groups(parts.take(i)) is None,
    ensures
        hex_groups(parts) is None,
    decreases parts.len(),
{
    if i < parts.len() {
        assert(parts.drop_last().take(i) =~= parts.take(i));
        lemma_hex_groups_none(parts.drop_last(), i);
    } else {
        assert(parts.take(i) =~= parts);
    }
}

proof fn lemma_hex_groups_len(parts: Seq<Seq<char>>)
    ensures
        hex_groups(parts) matches Some(g) ==> g.len() == parts.len(),
    decreases parts.len(),
{
    if parts.len() > 0 {
        lemma_hex_groups_len(parts.drop_last());
    }
}

fn read_groups(parts: &Vec<Vec<char>>, n: usize) -> (r: Option<Vec<u16>>)
    requires
        n <= parts@.len(),
    ensures
        match r {
            Some(g) => hex_groups(char_texts(parts@).take(n as int)) == Some(g@) && g@.len() == n,
            None => hex_groups(char_texts(parts@).take(n as int)) is None,
        },
{
    let ghost all = char_texts(parts@).take(n as int);
    let mut out: Vec<u16> = Vec::new();
    let mut i: usize = 0;
    while i < n
        invariant
            i <= n <= parts@.len(),
            out@.len() == i,
            all == char_texts(parts@).take(n as int),
            hex_groups(all.take(i as int)) == Some(out@),
        decreases n - i,
    {
        assert(all.take(i + 1).drop_last() =~= all.take(i as int));
        assert(all[i as int] == parts@[i as int]@);
        match read_group(parts[i].as_slice()) {
            Some(g) => {
                out.push(g);
            },
            None => {
                proof {
                    lemma_hex_groups_none(all, i + 1);
                }
                return None;
            },
        }
        i += 1;
    }
    assert(all.take(i as int) =~= all);
    Some(out)
}

fn read_ending(parts: &Vec<Vec<char>>) -> (r: Option<Vec<u16>>)
    ensures
        match r {
            Some(g) => ending_groups(char_texts(parts@)) == Some(g@) && g@.len() <= parts@.len()
                + 1,
            None => ending_groups(char_texts(parts@)) is None,
        },
{
    let ghost all = char_texts(parts@);
    let n: usize = parts.len();
    assert(all.take(n as int) =~= all);
    if n > 0 {
        assert(all.take(n - 1) =~= all.drop_last());
        assert(all.last() == parts@[n - 1]@);
        if let Some(v) = read_v4(parts[n - 1].as_slice()) {
            return match read_groups(parts, n - 1) {
                Some(g) => {
                    let mut g = g;
                    g.push((v / 65536) as u16);
                    g.push((v % 65536) as u16);
                    Some(g)
                },
                None => None,
            };
        }
    }
    read_groups(parts, n)
}

fn split_colons(s: &[char]) -> (r: Vec<Vec<char>>)
    ensures
        char_texts(r@) == colon_parts(s@),
{
    if s.len() == 0 {
        let r: Vec<Vec<char>> = Vec::new();
        assert(char_texts(r@) =~= colon_parts(s@));
        r
    } else {
        split(s, CharClass::Is(':'))
    }
}

proof fn lemma_groups_bound(g: Seq<u16>)
    ensures
        g.len() == 0 ==> groups_value(g) == 0,
        g.len() == 1 ==> groups_value(g) < 65536,
        g.len() == 2 ==> groups_value(g) < 0x1_0000_0000,
        g.len() == 3 ==> groups_value(g) < 0x1_0000_0000_0000,
        g.len() == 4 ==> groups_value(g) < 0x1_0000_0000_0000_0000,
        g.len() == 5 ==> groups_value(g) < 0x1_0000_0000_0000_0000_0000,
        g.len() == 6 ==> groups_value(g) < 0x1_0000_0000_0000_0000_0000_0000,
        g.len() == 7 ==> groups_value(g) < 0x1_0000_0000_0000_0000_0000_0000_0000,
        g.len() == 8 ==> groups_value(g) < 0x1_0000_0000_0000_0000_0000_0000_0000_0000,
    decreases g.len(),
{
    if g.len() > 0 {
        lemma_groups_bound(g.drop_last());
    }
}

fn value_of_groups(g: &Vec<u16>) -> (r: u128)
    requires
        g@.len() == 8,
    ensures
        r == groups_value(g@),
{
    let mut v: u128 = 0;
    let mut i: usize = 0;
    while i < 8
        invariant
            g@.len() == 8,
            i <= 8,
            v == groups_value(g@.take(i as int)),
        decreases 8 - i,
    {
        assert(g@.take(i + 1).drop_last() =~= g@.take(i as int));
        proof {
            lemma_groups_bound(g@.take(i + 1));
        }
        v = v * 65536 + g[i] as u128;
        i += 1;
    }
    assert(g@.take(8) =~= g@);
    v
}

fn read_v6(s: &[char]) -> (r: Option<u128>)
    ensures
        r == v6_value(s@),
{
    let n: usize = s.len();
    proof {
        reveal_strlit("::");
        assert("::"@ =~= seq![':', ':']);
    }
    let g: Vec<u16> = match find_text(s, "::") {
        None => match read_ending(&split_colons(s)) {
            Some(g) => {
                if g.len() != 8 {
                    return None;
                }
                g
            },
            None => {
                return None;
            },
        },
        Some(i) => {
            let head_text = slice_subrange(s, 0, i);
            let tail_text = slice_subrange(s, i + 2, n);
            assert(head_text@ =~= s@.take(i as int));
            assert(tail_text@ =~= s@.skip(i + 2));
            let head_parts = split_colons(head_text);
            let tail_parts = split_colons(tail_text);
            assert(char_texts(head_parts@).take(head_parts@.len() as int) =~= char_texts(
                head_parts@,
            ));
            let head = match read_groups(&head_parts, head_parts.len()) {
                Some(h) => h,
                None => {
                    return None;
                },
            };
            let tail = match read_ending(&tail_parts) {
                Some(t) => t,
                None => {
                    return None;
                },
            };
            let (hn, tn): (usize, usize) = (head.len(), tail.len());
            if hn > 7 || tn > 7 - hn {
                return None;
            }
            let mut g = head;
            while g.len() < 8 - tn
                invariant
                    hn + tn <= 7,
                    hn == head@.len(),
                    hn <= g@.len() <= 8 - tn,
                    g@ == head@ + zeros((g@.len() - hn) as nat),
                decreases 8 - g.len(),
            {
                let ghost before = g@;
                g.push(0);
                assert(g@ =~= head@ + zeros((g@.len() - hn) as nat));
            }
            let ghost base = g@;
            let mut j: usize = 0;
            while j < tn
                invariant
                    j <= tn == tail@.len(),
                    g@ == base + tail@.take(j as int),
                decreases tn - j,
            {
                g.push(tail[j]);
                j += 1;
                assert(g@ =~= base + tail@.take(j as int));
            }
            assert(tail@.take(j as int) =~= tail@);
            g
        },
    };
    Some(value_of_groups(&g))
}

fn groups_of(v: u128, n: u8) -> (r: Vec<u16>)
    ensures
        r@ == value_groups(v as nat, n as nat),
    decreases n,
{
    if n == 0 {
        Vec::new()
    } else {
        let mut g = groups_of(v / 65536, n - 1);
        g.push((v % 65536) as u16);
        g
    }
}

fn write_groups(g: &[u16]) -> (r: String)
    ensures
        r@ == groups_text(g@),
{
    let mut out = String::new();
    let mut i: usize = 0;
    while i < g.len()
        invariant
            i <= g.len(),
            out@ == groups_text(g@.take(i as int)),
        decreases g.len() - i,
    {
        let ghost before = out@;
        if i > 0 {
            out.push(':');
        }
        append_text(&mut out, hex_of(g[i]).as_slice());
        assert(g@.take(i + 1).drop_last() =~= g@.take(i as int));
        i += 1;
        assert(out@ =~= groups_text(g@.take(i as int)));
    }
    assert(g@.take(i as int) =~= g@);
    out
}

proof fn lemma_value_groups_len(v: nat, n: nat)
    ensures
        value_groups(v, n).len() == n,
    decreases n,
{
    if n > 0 {
        lemma_value_groups_len(v / 65536, (n - 1) as nat);
    }
}

fn write_v6(v: u128) -> (r: String)
    ensures
        r@ == v6_text(v),
{
    if v / 4294967296 == 65535 {
        let mut out = String::new();
        out.append("::ffff:");
        out.append(write_v4((v % 4294967296) as u32).as_str());
        proof {
            reveal_strlit("::ffff:");
        }
        assert(out@ =~= v6_text(v));
        return out;
    }
    let g = groups_of(v, 8);
    proof {
        lemma_value_groups_len(v as nat, 8);
    }
    let mut best: usize = 8;
    let mut best_len: usize = 0;
    let mut run: usize = 0;
    let mut i: usize = 8;
    while i > 0
        invariant
            g@.len() == 8,
            i <= 8,
            i <= best <= 8,
            run == zero_run(g@, i as int),
            run + i <= 8,
            best == longest_run(g@, i as int),
            best_len == zero_run(g@, best as int),
            best + best_len <= 8,
        decreases i,
    {
        i -= 1;
        if g[i] == 0 {
            run += 1;
        } else {
            run = 0;
        }
        if run >= best_len {
            best = i;
            best_len = run;
        }
    }
    if best_len > 1 {
        let head = slice_subrange(g.as_slice(), 0, best);
        let tail = slice_subrange(g.as_slice(), best + best_len, 8);
        assert(head@ =~= g@.take(best as int));
        assert(tail@ =~= g@.skip(best + best_len));
        let mut out = write_groups(head);
        out.append("::");
        out.append(write_groups(tail).as_str());
        proof {
            reveal_strlit("::");
        }
        assert(out@ =~= v6_text(v));
        out
    } else {
        write_groups(g.as_slice())
    }
}

// ---------------------------------------------------------------------------
// Addresses

/// The IP address that a text stands for.
pub open spec fn ip_value(s: Seq<char>) -> Option<IpAddr> {
    match v4_value(s) {
        Some(v) => Some(IpAddr::V4(v)),
        None => match v6_value(s) {
            Some(v) => Some(IpAddr::V6(v)),
            None => None,
        },
    }
}

impl IpAddr {
    /// The canonical text of the address.
    pub open spec fn text(self) -> Seq<char> {
        match self {
            IpAddr::V4(v) => v4_text(v),
            IpAddr::V6(v) => v6_text(v),
        }
    }

    /// Whether the address comes no later than another: IPv4 before IPv6, then by
    /// number.
    pub open spec fn le(self, other: IpAddr) -> bool {
        match (self, other) {
            (IpAddr::V4(a), IpAddr::V4(b)) => a <= b,
            (IpAddr::V4(_), IpAddr::V6(_)) => true,
            (IpAddr::V6(_), IpAddr::V4(_)) => false,
            (IpAddr::V6(a), IpAddr::V6(b)) => a <= b,
        }
    }

    /// Reads an IP address.
    pub fn parse(s: &str) -> (r: Option<IpAddr>)
        ensures
            r == ip_value(s@),
    {
        read_ip(chars_of(s).as_slice())
    }

    /// Writes the address in its canonical form.
    pub fn to_text(self) -> (r: String)
        ensures
            r@ == self.text(),
    {
        match self {
            IpAddr::V4(v) => write_v4(v),
            IpAddr::V6(v) => write_v6(v),
        }
    }

    /// Tests whether the address comes no later than another.
    pub fn no_later_than(self, other: IpAddr) -> (r: bool)
        ensures
            r == self.le(other),
    {
        match (self, other) {
            (IpAddr::V4(a), IpAddr::V4(b)) => a <= b,
            (IpAddr::V4(_), IpAddr::V6(_)) => true,
            (IpAddr::V6(_), IpAddr::V4(_)) => false,
            (IpAddr::V6(a), IpAddr::V6(b)) => a <= b,
        }
    }
}

/// Reads an IP address.
pub fn read_ip(s: &[char]) -> (r: Option<IpAddr>)
    ensures
        r == ip_value(s@),
{
    match read_v4(s) {
        Some(v) => Some(IpAddr::V4(v)),
        None => match read_v6(s) {
            Some(v) => Some(IpAddr::V6(v)),
            None => None,
        },
    }
}

// ---------------------------------------------------------------------------
// Lists of addresses

/// Copies a list of addresses.
pub fn copy_ips(v: &Vec<IpAddr>) -> (r: Vec<IpAddr>)
    ensures
        r@ == v@,
{
    let mut out: Vec<IpAddr> = Vec::new();
    let mut i: usize = 0;
    while i < v.len()
        invariant
            i <= v@.len(),
            out@ == v@.take(i as int),
        decreases v.len() - i,
    {
        out.push(v[i]);
        i += 1;
        assert(out@ =~= v@.take(i as int));
    }
    assert(v@.take(i as int) =~= v@);
    out
}

/// Adds each address that the list does not hold yet.
pub fn add_ips(list: &mut Vec<IpAddr>, more: &Vec<IpAddr>)
    ensures
        final(list)@ == all_added(old(list)@, more@),
{
    let mut i: usize = 0;
    while i < more.len()
        invariant
            i <= more@.len(),
            list@ == all_added(old(list)@, more@.take(i as int)),
        decreases more.len() - i,
    {
        if !holds_ip(list, more[i]) {
            list.push(more[i]);
        }
        assert(more@.take(i + 1).drop_last() =~= more@.take(i as int));
        i += 1;
    }
    assert(more@.take(i as int) =~= more@);
}

/// Tests whether a list holds an address.
pub fn holds_ip(list: &Vec<IpAddr>, ip: IpAddr) -> (r: bool)
    ensures
        r == list@.contains(ip),
{
    let mut i: usize = 0;
    while i < list.len()
        invariant
            i <= list@.len(),
            forall|j: int| 0 <= j < i ==> list@[j] != ip,
        decreases list.len() - i,
    {
        if list[i] == ip {
            return true;
        }
        i += 1;
    }
    false
}

// ---------------------------------------------------------------------------
// Socket addresses

/// The number that decimal digits stand for, if it is at most `max`.
pub open spec fn plain_number(t: Seq<char>, max: nat) -> Option<nat> {
    if t.len() > 0 && has_only(t, CharClass::Digit) && number(t, 10) <= max {
        Some(number(t, 10))
    } else {
        None
    }
}

/// The address and zone inside the brackets: `ipv6` or `ipv6%zone`.
pub open spec fn scoped_v6(t: Seq<char>) -> Option<(u128, u32)> {
    let i = first_index(t, CharClass::Is('%'));
    if i >= t.len() {
        match v6_value(t) {
            Some(v) => Some((v, 0u32)),
            None => None,
        }
    } else {
        match (v6_value(t.take(i)), plain_number(t.skip(i + 1), 0xffff_ffff)) {
            (Some(v), Some(n)) => Some((v, n as u32)),
            _ => None,
        }
    }
}

/// The socket address that a text stands for: `ipv4:port` or `[ipv6]:port`.
pub open spec fn socket_value(s: Seq<char>) -> Option<SocketAddr> {
    if s.len() > 0 && s[0] == '[' {
        let j = first_index(s, CharClass::Is(']'));
        if j + 1 < s.len() && s[j + 1] == ':' {
            match (scoped_v6(s.subrange(1, j)), plain_number(s.skip(j + 2), 65535)) {
                (Some((v, z)), Some(p)) => Some(
                    SocketAddr { ip: IpAddr::V6(v), port: p as u16, scope: z },
                ),
                _ => None,
            }
        } else {
            None
        }
    } else {
        let j = first_index(s, CharClass::Is(':'));
        if j < s.len() {
            match (v4_value(s.take(j)), plain_number(s.skip(j + 1), 65535)) {
                (Some(v), Some(p)) => Some(
                    SocketAddr { ip: IpAddr::V4(v), port: p as u16, scope: 0 },
                ),
                _ => None,
            }
        } else {
            None
        }
    }
}

fn read_plain(t: &[char], max: u32) -> (r: Option<u32>)
    ensures
        match plain_number(t@, max as nat) {
            Some(n) => r == Some(n as u32) && n <= max,
            None => r is None,
        },
{
    if t.len() == 0 || !contains_only(t, CharClass::Digit) {
        return None;
    }
    number_up_to(t, max)
}

fn read_scoped_v6(t: &[char]) -> (r: Option<(u128, u32)>)
    ensures
        r == scoped_v6(t@),
{
    let n: usize = t.len();
    match find(t, CharClass::Is('%')) {
        None => match read_v6(t) {
            Some(v) => Some((v, 0u32)),
            None => None,
        },
        Some(i) => {
            let head = slice_subrange(t, 0, i);
            let zone = slice_subrange(t, i + 1, n);
            assert(head@ =~= t@.take(i as int));
            assert(zone@ =~= t@.skip(i + 1));
            match (read_v6(head), read_plain(zone, 0xffff_ffff)) {
                (Some(v), Some(z)) => Some((v, z)),
                _ => None,
            }
        },
    }
}

impl SocketAddr {
    /// The text of the socket address.
    pub open spec fn text(self) -> Seq<char> {
        match self.ip {
            IpAddr::V4(v) => v4_text(v) + seq![':'] + decimal(self.port as nat),
            IpAddr::V6(v) => if self.scope == 0 {
                seq!['['] + v6_text(v) + seq![']', ':'] + decimal(self.port as nat)
            } else {
                seq!['['] + v6_text(v) + seq!['%'] + decimal(self.scope as nat) + seq![']', ':']
                    + decimal(self.port as nat)
            },
        }
    }

    /// An address with a port and no zone.
    pub fn new(ip: IpAddr, port: u16) -> (r: SocketAddr)
        ensures
            r == (SocketAddr { ip, port, scope: 0 }),
    {
        SocketAddr { ip, port, scope: 0 }
    }

    /// Reads a socket address.
    pub fn parse(s: &str) -> (r: Option<SocketAddr>)
        ensures
            r == socket_value(s@),
    {
        read_socket(chars_of(s).as_slice())
    }

    /// Writes the socket address.
    pub fn to_text(self) -> (r: String)
        ensures
            r@ == self.text(),
    {
        let mut out = String::new();
        match self.ip {
            IpAddr::V4(v) => {
                out.append(write_v4(v).as_str());
                out.push(':');
            },
            IpAddr::V6(v) => {
                out.push('[');
                out.append(write_v6(v).as_str());
                if self.scope != 0 {
                    out.push('%');
                    out.append(decimal_of(self.scope as u128).as_str());
                }
                out.push(']');
                out.push(':');
            },
        }
        out.append(decimal_of(self.port as u128).as_str());
        assert(out@ =~= self.text());
        out
    }
}

/// Reads a socket address.
pub fn read_socket(s: &[char]) -> (r: Option<SocketAddr>)
    ensures
        r == socket_value(s@),
{
    let n: usize = s.len();
    if n > 0 && s[0] == '[' {
        match find(s, CharClass::Is(']')) {
            None => None,
            Some(j) => {
                proof {
                    crate::text::lemma_index_from(s@, CharClass::Is(']'), 0);
                }
                if j + 1 < n && s[j + 1] == ':' {
                    let inner = slice_subrange(s, 1, j);
                    let port = slice_subrange(s, j + 2, n);
                    assert(port@ =~= s@.skip(j + 2));
                    match (read_scoped_v6(inner), read_plain(port, 65535)) {
                        (Some((v, z)), Some(p)) => Some(
                            SocketAddr { ip: IpAddr::V6(v), port: p as u16, scope: z },
                        ),
                        _ => None,
                    }
                } else {
                    None
                }
            },
        }
    } else {
        match find(s, CharClass::Is(':')) {
            None => None,
            Some(j) => {
                let head = slice_subrange(s, 0, j);
                let port = slice_subrange(s, j + 1, n);
                assert(head@ =~= s@.take(j as int));
                assert(port@ =~= s@.skip(j + 1));
                match (read_v4(head), read_plain(port, 65535)) {
                    (Some(v), Some(p)) => Some(
                        SocketAddr { ip: IpAddr::V4(v), port: p as u16, scope: 0 },
                    ),
                    _ => None,
                }
            },
        }
    }
}

// ---------------------------------------------------------------------------
// Reading back

proof fn lemma_octet(n: nat)
    requires
        n <= 255,
    ensures
        octet(decimal(n)) == Some(n),
        has_only(decimal(n), CharClass::Digit),
        !has_any(decimal(n), CharClass::Is('.')),
        !has_any(decimal(n), CharClass::Is(':')),
{
    lemma_number_of_digits(n, 10);
    assert(vstd::arithmetic::power::pow(10, 3) == 1000) by {
        vstd::arithmetic::power::lemma_pow1(10);
        vstd::arithmetic::power::lemma_pow_adds(10, 1, 1);
        vstd::arithmetic::power::lemma_pow_adds(10, 1, 2);
    }
    lemma_digits_len(n, 10, 3);
    let t = decimal(n);
    assert forall|i: int| 0 <= i < t.len() implies CharClass::Digit.has(#[trigger] t[i]) by {
        assert(is_digit_below(t[i], 10));
    }
    if t.len() > 1 && n == 0 {
        assert(t.len() == 1);
    }
}

/// An IPv4 address that was written is read back.
pub proof fn lemma_v4_read_back(v: u32)
    ensures
        v4_value(v4_text(v)) == Some(v),
        forall|i: int|
            0 <= i < v4_text(v).len() ==> CharClass::Digit.has(#[trigger] v4_text(v)[i])
                || v4_text(v)[i] == '.',
{
    let a = (v / 16777216) as nat;
    let b = (v / 65536 % 256) as nat;
    let c = (v / 256 % 256) as nat;
    let d = (v % 256) as nat;
    lemma_octet(a);
    lemma_octet(b);
    lemma_octet(c);
    lemma_octet(d);
    let k = CharClass::Is('.');
    let ab = decimal(a) + seq!['.'] + decimal(b);
    let abc = ab + seq!['.'] + decimal(c);
    let abcd = abc + seq!['.'] + decimal(d);
    assert(v4_text(v) =~= abcd);
    lemma_one_piece(decimal(a), k);
    lemma_pieces_snoc(decimal(a), '.', decimal(b), k, 0);
    lemma_pieces_snoc(ab, '.', decimal(c), k, 0);
    lemma_pieces_snoc(abc, '.', decimal(d), k, 0);
    let p = pieces(abcd, k);
    assert(p == seq![decimal(a)].push(decimal(b)).push(decimal(c)).push(decimal(d)));
    assert(p[0] == decimal(a) && p[1] == decimal(b) && p[2] == decimal(c) && p[3] == decimal(d));
    assert(((a * 256 + b) * 256 + c) * 256 + d == v) by {
        let x = v as int;
        assert(x / 65536 == (x / 256) / 256) by (nonlinear_arith);
        assert(x / 16777216 == (x / 65536) / 256) by (nonlinear_arith);
    }
    assert forall|n: int| 0 <= n < p.len() implies has_only(#[trigger] p[n], CharClass::Digit) by {}
    lemma_covered_by_pieces(abcd, k, CharClass::Digit, 0);
}

proof fn lemma_hex_group(x: u16)
    ensures
        hex_group(hex(x as nat)) == Some(x),
        hex(x as nat).len() >= 1,
        forall|i: int|
            0 <= i < hex(x as nat).len() ==> is_digit_below(#[trigger] hex(x as nat)[i], 16),
{
    let n = x as nat;
    lemma_number_of_digits(n, 16);
    assert(vstd::arithmetic::power::pow(16, 4) == 65536) by {
        vstd::arithmetic::power::lemma_pow1(16);
        vstd::arithmetic::power::lemma_pow_adds(16, 1, 1);
        assert(vstd::arithmetic::power::pow(16, 2) == 256);
        vstd::arithmetic::power::lemma_pow_adds(16, 2, 2);
    }
    lemma_digits_len(n, 16, 4);
    assert forall|i: int| 0 <= i < hex(n).len() implies CharClass::HexDigit.has(
        #[trigger] hex(n)[i],
    ) by {
        assert(is_digit_below(hex(n)[i], 16));
    }
}

/// Written groups are read back; colons stand only between digits.
proof fn lemma_groups_read_back(g: Seq<u16>)
    requires
        g.len() >= 1,
    ensures
        ({
            let t = groups_text(g);
            &&& t.len() >= 1
            &&& hex_groups(pieces(t, CharClass::Is(':'))) == Some(g)
            &&& pieces(t, CharClass::Is(':')).last() == hex(g.last() as nat)
            &&& pieces(t, CharClass::Is(':')).len() == g.len()
            &&& t[0] != ':'
            &&& t.last() != ':'
            &&& forall|i: int|
                0 <= i < t.len() ==> (#[trigger] t[i]) == ':' || is_digit_below(t[i], 16)
            &&& forall|i: int|
                0 <= i < t.len() - 1 ==> !(#[trigger] t[i] == ':' && t[i + 1] == ':')
        }),
    decreases g.len(),
{
    let k = CharClass::Is(':');
    let x = g.last();
    let h = hex(x as nat);
    lemma_hex_group(x);
    assert(!has_any(h, k)) by {
        assert forall|i: int| 0 <= i < h.len() implies !k.has(#[trigger] h[i]) by {
            assert(is_digit_below(h[i], 16));
        }
    }
    assert(is_digit_below(h[0], 16));
    assert(is_digit_below(h[h.len() - 1], 16));
    if g.len() == 1 {
        lemma_one_piece(h, k);
        let p = pieces(h, k);
        assert(p.drop_last() =~= Seq::empty());
        assert(hex_groups(p.drop_last()) == Some(Seq::<u16>::empty()));
        assert(Seq::<u16>::empty().push(x) =~= g);
    } else {
        let rest = g.drop_last();
        lemma_groups_read_back(rest);
        let r = groups_text(rest);
        let t = groups_text(g);
        lemma_pieces_snoc(r, ':', h, k, 0);
        let p = pieces(t, k);
        assert(p.drop_last() =~= pieces(r, k));
        assert(rest.push(x) =~= g);
        assert forall|i: int| 0 <= i < t.len() implies (#[trigger] t[i]) == ':' || is_digit_below(
            t[i],
            16,
        ) by {
            if i < r.len() {
                assert(t[i] == r[i]);
            } else if i > r.len() {
                assert(t[i] == h[i - r.len() - 1]);
            }
        }
        assert forall|i: int| 0 <= i < t.len() - 1 implies !(#[trigger] t[i] == ':' && t[i + 1]
            == ':') by {
            if i + 1 < r.len() {
                assert(t[i] == r[i] && t[i + 1] == r[i + 1]);
            } else if i + 1 == r.len() {
                assert(t[i] == r.last());
            } else if i == r.len() {
                assert(t[i + 1] == h[0]);
            } else {
                assert(t[i] == h[i - r.len() - 1]);
                assert(is_digit_below(h[i - r.len() - 1], 16));
            }
        }
        assert(t[0] == r[0]);
        assert(t.last() == h.last());
    }
}

proof fn lemma_value_of_groups(v: nat, n: nat)
    requires
        v < vstd::arithmetic::power::pow(65536, n),
    ensures
        groups_value(value_groups(v, n)) == v,
        value_groups(v, n).len() == n,
    decreases n,
{
    if n == 0 {
        vstd::arithmetic::power::lemma_pow0(65536);
    } else {
        vstd::arithmetic::power::lemma_pow1(65536);
        vstd::arithmetic::power::lemma_pow_adds(65536, 1, (n - 1) as nat);
        let p = vstd::arithmetic::power::pow(65536, (n - 1) as nat);
        assert(v / 65536 < p) by (nonlinear_arith)
            requires
                v < 65536 * p,
        ;
        lemma_value_of_groups(v / 65536, (n - 1) as nat);
        let g = value_groups(v / 65536, (n - 1) as nat);
        assert(g.push((v % 65536) as u16).drop_last() =~= g);
    }
}

proof fn lemma_pow_128()
    ensures
        vstd::arithmetic::power::pow(65536, 8) == 0x1_0000_0000_0000_0000_0000_0000_0000_0000,
        vstd::arithmetic::power::pow(65536, 2) == 0x1_0000_0000,
{
    vstd::arithmetic::power::lemma_pow1(65536);
    vstd::arithmetic::power::lemma_pow_adds(65536, 1, 1);
    assert(vstd::arithmetic::power::pow(65536, 2) == 0x1_0000_0000);
    vstd::arithmetic::power::lemma_pow_adds(65536, 2, 2);
    assert(vstd::arithmetic::power::pow(65536, 4) == 0x1_0000_0000_0000_0000);
    vstd::arithmetic::power::lemma_pow_adds(65536, 4, 4);
}

proof fn lemma_zero_run(g: Seq<u16>, i: int)
    requires
        0 <= i <= g.len(),
    ensures
        0 <= zero_run(g, i) <= g.len() - i,
        forall|j: int| i <= j < i + zero_run(g, i) ==> #[trigger] g[j] == 0,
    decreases g.len() - i,
{
    if i < g.len() && g[i] == 0 {
        lemma_zero_run(g, i + 1);
    }
}

proof fn lemma_longest_run(g: Seq<u16>, i: int)
    requires
        0 <= i <= g.len(),
    ensures
        i <= longest_run(g, i) <= g.len(),
    decreases g.len() - i,
{
    if i < g.len() {
        lemma_longest_run(g, i + 1);
    }
}

proof fn lemma_no_dot(s: Seq<char>)
    requires
        forall|i: int| 0 <= i < s.len() ==> (#[trigger] s[i]) != '.',
    ensures
        v4_value(s) is None,
{
    lemma_one_piece(s, CharClass::Is('.'));
}

/// The groups of a written list of them, or of nothing.
proof fn lemma_side(g: Seq<u16>)
    ensures
        hex_groups(colon_parts(groups_text(g))) == Some(g),
        ending_groups(colon_parts(groups_text(g))) == Some(g),
{
    let t = groups_text(g);
    if g.len() == 0 {
        assert(colon_parts(t) =~= Seq::empty());
        assert(g =~= Seq::empty());
    } else {
        lemma_groups_read_back(g);
        let last = hex(g.last() as nat);
        lemma_hex_group(g.last());
        assert forall|i: int| 0 <= i < last.len() implies (#[trigger] last[i]) != '.' by {
            assert(is_digit_below(last[i], 16));
        }
        lemma_no_dot(last);
    }
}

proof fn lemma_v6_without_mapping(v: u128)
    requires
        v / 4294967296 != 65535,
    ensures
        v6_value(v6_text(v)) == Some(v),
{
    let g = value_groups(v as nat, 8);
    lemma_pow_128();
    lemma_value_of_groups(v as nat, 8);
    let i = longest_run(g, 0);
    lemma_longest_run(g, 0);
    lemma_zero_run(g, i);
    let n = zero_run(g, i);
    let t = v6_text(v);
    let pat = seq![':', ':'];
    if n > 1 {
        let (a, b) = (g.take(i), g.skip(i + n));
        let (x, y) = (groups_text(a), groups_text(b));
        lemma_side(a);
        lemma_side(b);
        if a.len() > 0 {
            lemma_groups_read_back(a);
        }
        assert(t =~= x + pat + y);
        assert(t.subrange(x.len() as int, x.len() as int + 2) =~= pat);
        assert forall|m: int| 0 <= m < x.len() implies !#[trigger] occurs_at(t, pat, m) by {
            if occurs_at(t, pat, m) {
                let w = t.subrange(m, m + 2);
                assert(w[0] == t[m] && w[1] == t[m + 1]);
                assert(t[m] == x[m]);
                if m + 1 < x.len() {
                    assert(t[m + 1] == x[m + 1]);
                    assert(!(x[m] == ':' && x[m + 1] == ':'));
                } else {
                    assert(x[m] == x.last());
                }
            }
        }
        lemma_found_at(t, pat, 0, x.len() as int);
        assert(t.take(x.len() as int) =~= x);
        assert(t.skip(x.len() as int + 2) =~= y);
        assert(a + zeros((8 - a.len() - b.len()) as nat) + b =~= g);
    } else {
        lemma_groups_read_back(g);
        lemma_side(g);
        assert forall|m: int| 0 <= m implies !#[trigger] occurs_at(t, pat, m) by {
            if occurs_at(t, pat, m) {
                let w = t.subrange(m, m + 2);
                assert(w[0] == t[m] && w[1] == t[m + 1]);
                assert(!(t[m] == ':' && t[m + 1] == ':'));
            }
        }
        lemma_not_found(t, pat, 0);
    }
}

proof fn lemma_v6_with_mapping(v: u128)
    requires
        v / 4294967296 == 65535,
    ensures
        v6_value(v6_text(v)) == Some(v),
{
    let lo = (v % 4294967296) as u32;
    let t = v6_text(v);
    let pat = seq![':', ':'];
    let f = seq!['f', 'f', 'f', 'f'];
    let x = v4_text(lo);
    let k = CharClass::Is(':');
    lemma_v4_read_back(lo);
    assert(t.subrange(0, 2) =~= pat);
    lemma_found_at(t, pat, 0, 0);
    assert(t.take(0) =~= Seq::empty());
    let rest = f + seq![':'] + x;
    assert(t.skip(2) =~= rest);
    assert(!has_any(x, k)) by {
        assert forall|i: int| 0 <= i < x.len() implies !k.has(#[trigger] x[i]) by {
            assert(CharClass::Digit.has(x[i]) || x[i] == '.');
        }
    }
    lemma_one_piece(f, k);
    lemma_pieces_snoc(f, ':', x, k, 0);
    let p = pieces(rest, k);
    assert(p == seq![f].push(x));
    assert(p.drop_last() =~= seq![f]);
    assert(hex_group(f) == Some(65535u16)) by {
        assert(number(Seq::<char>::empty(), 16) == 0);
        let (f1, f2, f3) = (seq!['f'], seq!['f', 'f'], seq!['f', 'f', 'f']);
        assert(f1.drop_last() =~= Seq::empty());
        assert(f2.drop_last() =~= f1);
        assert(f3.drop_last() =~= f2);
        assert(f.drop_last() =~= f3);
        assert(number(f1, 16) == 15);
        assert(number(f2, 16) == 255);
        assert(number(f3, 16) == 4095);
        assert(number(f, 16) == 65535);
    }
    assert(seq![f].drop_last() =~= Seq::empty());
    assert(hex_groups(seq![f].drop_last()) == Some(Seq::<u16>::empty()));
    assert(hex_groups(seq![f]) == Some(Seq::<u16>::empty().push(65535u16)));
    let tail = Seq::<u16>::empty().push(65535u16).push((lo / 65536) as u16).push(
        (lo % 65536) as u16,
    );
    assert(ending_groups(colon_parts(rest)) == Some(tail));
    assert(colon_parts(Seq::<char>::empty()) =~= Seq::empty());
    assert(hex_groups(colon_parts(t.take(0))) == Some(Seq::<u16>::empty()));
    let g = Seq::<u16>::empty() + zeros(5) + tail;
    assert(v6_groups(t) == Some(g));
    lemma_zero_groups(5);
    let (g6, g7) = (zeros(5).push(65535u16), zeros(5).push(65535u16).push((lo / 65536) as u16));
    assert(g =~= g7.push((lo % 65536) as u16));
    assert(g.drop_last() =~= g7);
    assert(g7.drop_last() =~= g6);
    assert(g6.drop_last() =~= zeros(5));
    assert(groups_value(g6) == 65535);
    assert(groups_value(g7) == 65535 * 65536 + lo / 65536);
    assert(groups_value(g) == v);
}

proof fn lemma_zero_groups(n: nat)
    ensures
        groups_value(zeros(n)) == 0,
    decreases n,
{
    if n > 0 {
        lemma_zero_groups((n - 1) as nat);
        assert(zeros(n).drop_last() =~= zeros((n - 1) as nat));
    }
}

/// An IPv6 address is written with at least two colons.
pub proof fn lemma_v6_has_colons(v: u128)
    ensures
        exists|i: int, j: int|
            0 <= i < j < v6_text(v).len() && #[trigger] v6_text(v)[i] == ':' && #[trigger] v6_text(
                v,
            )[j] == ':',
{
    let g = value_groups(v as nat, 8);
    let i = longest_run(g, 0);
    let n = zero_run(g, i);
    let t = v6_text(v);
    lemma_value_groups_len(v as nat, 8);
    if v / 4294967296 == 65535 {
        assert(t[0] == ':' && t[1] == ':');
    } else if n > 1 {
        let x = groups_text(g.take(i)).len() as int;
        assert(t[x] == ':' && t[x + 1] == ':');
    } else {
        let rest = g.drop_last();
        let x = groups_text(rest);
        let y = groups_text(rest.drop_last());
        assert(t[x.len() as int] == ':');
        assert(x[y.len() as int] == ':');
        assert(t[y.len() as int] == x[y.len() as int]);
    }
}

/// An IPv4 address is written with digits and dots, and ends with a digit.
pub proof fn lemma_v4_chars(v: u32)
    ensures
        v4_text(v).len() > 0,
        CharClass::Digit.has(v4_text(v)[0]),
        CharClass::Digit.has(v4_text(v).last()),
        forall|i: int|
            0 <= i < v4_text(v).len() ==> CharClass::Digit.has(#[trigger] v4_text(v)[i])
                || v4_text(v)[i] == '.',
{
    lemma_v4_read_back(v);
    let a = decimal((v / 16777216) as nat);
    let d = decimal((v % 256) as nat);
    lemma_octet((v / 16777216) as nat);
    lemma_octet((v % 256) as nat);
    lemma_number_of_digits((v / 16777216) as nat, 10);
    lemma_number_of_digits((v % 256) as nat, 10);
    assert(v4_text(v)[0] == a[0]);
    assert(v4_text(v).last() == d.last());
    assert(CharClass::Digit.has(d[d.len() - 1]));
}

proof fn lemma_groups_chars(g: Seq<u16>)
    ensures
        forall|i: int|
            0 <= i < groups_text(g).len() ==> CharClass::HexDigit.has(#[trigger] groups_text(g)[i])
                || groups_text(g)[i] == ':',
        groups_text(g).len() > 0 ==> groups_text(g).last() != '.',
{
    if g.len() > 0 {
        lemma_groups_read_back(g);
        let t = groups_text(g);
        assert(t[t.len() - 1] == ':' || is_digit_below(t[t.len() - 1], 16));
    }
}

/// An address is written with hexadecimal digits, colons and dots, and ends with no dot;
/// an IPv6 address has a colon.
pub proof fn lemma_address_text(ip: IpAddr)
    ensures
        ip.text().len() > 0,
        ip.text().last() != '.',
        ip is V6 <==> has_any(ip.text(), CharClass::Is(':')),
        forall|i: int|
            0 <= i < ip.text().len() ==> CharClass::HexDigit.has(#[trigger] ip.text()[i])
                || ip.text()[i] == ':' || ip.text()[i] == '.',
{
    match ip {
        IpAddr::V4(v) => {
            lemma_v4_chars(v);
            let t = v4_text(v);
            assert forall|i: int| 0 <= i < t.len() implies !CharClass::Is(':').has(#[trigger] t[i]) by {
                assert(CharClass::Digit.has(t[i]) || t[i] == '.');
            }
        },
        IpAddr::V6(v) => {
            lemma_v6_has_colons(v);
            let t = v6_text(v);
            let (i, j) = choose|i: int, j: int|
                0 <= i < j < t.len() && #[trigger] t[i] == ':' && #[trigger] t[j] == ':';
            assert(CharClass::Is(':').has(t[i]));
            let g = value_groups(v as nat, 8);
            let m = longest_run(g, 0);
            let n = zero_run(g, m);
            if v / 4294967296 == 65535 {
                let lo = (v % 4294967296) as u32;
                lemma_v4_chars(lo);
                let x = v4_text(lo);
                assert(t.last() == x.last());
                assert forall|i: int| 0 <= i < t.len() implies CharClass::HexDigit.has(
                    #[trigger] t[i],
                ) || t[i] == ':' || t[i] == '.' by {
                    if i >= 7 {
                        assert(t[i] == x[i - 7]);
                    }
                }
            } else if n > 1 {
                let (x, y) = (groups_text(g.take(m)), groups_text(g.skip(m + n)));
                lemma_groups_chars(g.take(m));
                lemma_groups_chars(g.skip(m + n));
                assert forall|i: int| 0 <= i < t.len() implies CharClass::HexDigit.has(
                    #[trigger] t[i],
                ) || t[i] == ':' || t[i] == '.' by {
                    if i < x.len() {
                        assert(t[i] == x[i]);
                    } else if i >= x.len() + 2 {
                        assert(t[i] == y[i - x.len() - 2]);
                    }
                }
                if y.len() > 0 {
                    assert(t.last() == y.last());
                }
            } else {
                lemma_groups_chars(g);
            }
        },
    }
}

/// A text with a character that is neither a digit nor a dot, without `::` and with at most
/// one colon, is no address.
pub proof fn lemma_not_an_address(t: Seq<char>, n: int)
    requires
        0 <= n < t.len(),
        !CharClass::Digit.has(t[n]),
        t[n] != '.',
        first_occurrence(t, seq![':', ':']) is None,
        pieces(t, CharClass::Is(':')).len() <= 2,
    ensures
        ip_value(t) is None,
{
    let dot = CharClass::Is('.');
    if v4_value(t) is Some {
        let p = pieces(t, dot);
        assert forall|m: int| 0 <= m < p.len() implies has_only(
            #[trigger] p[m],
            CharClass::Digit,
        ) by {
            assert(octet(p[0]) is Some && octet(p[1]) is Some && octet(p[2]) is Some && octet(p[3])
                is Some);
        }
        lemma_covered_by_pieces(t, dot, CharClass::Digit, 0);
        assert(dot.has(t[n]) || CharClass::Digit.has(t[n]));
    }
    let parts = pieces(t, CharClass::Is(':'));
    lemma_hex_groups_len(parts);
    lemma_hex_groups_len(parts.drop_last());
}

/// A written address is read back as the same address.
pub proof fn law_addresses_are_read_back(ip: IpAddr)
    ensures
        ip_value(ip.text()) == Some(ip),
{
    match ip {
        IpAddr::V4(v) => {
            lemma_v4_read_back(v);
        },
        IpAddr::V6(v) => {
            if v / 4294967296 == 65535 {
                lemma_v6_with_mapping(v);
            } else {
                lemma_v6_without_mapping(v);
            }
            let t = v6_text(v);
            lemma_v6_has_colons(v);
            if v4_value(t) is Some {
                let p = pieces(t, CharClass::Is('.'));
                assert forall|n: int| 0 <= n < p.len() implies has_only(
                    #[trigger] p[n],
                    CharClass::Digit,
                ) by {
                    assert(octet(p[0]) is Some && octet(p[1]) is Some && octet(p[2]) is Some
                        && octet(p[3]) is Some);
                }
                lemma_covered_by_pieces(t, CharClass::Is('.'), CharClass::Digit, 0);
                let (i, j) = choose|i: int, j: int|
                    0 <= i < j < t.len() && #[trigger] t[i] == ':' && #[trigger] t[j] == ':';
                assert(!CharClass::Digit.has(t[i]) && t[i] != '.');
            }
        },
    }
}

/// Different addresses are written differently.
pub proof fn law_addresses_are_written_apart(a: IpAddr, b: IpAddr)
    requires
        a.text() == b.text(),
    ensures
        a == b,
{
    law_addresses_are_read_back(a);
    law_addresses_are_read_back(b);
}

/// Dotted addresses are read strictly: only the canonical form of an address is read as it.
pub proof fn law_dotted_addresses_have_one_form(s: Seq<char>, v: u32)
    ensures
        v4_value(s) == Some(v) <==> s == v4_text(v),
{
    lemma_v4_read_back(v);
    if v4_value(s) == Some(v) {
        let p = pieces(s, CharClass::Is('.'));
        lemma_octet_is_decimal(p[0]);
        lemma_octet_is_decimal(p[1]);
        lemma_octet_is_decimal(p[2]);
        lemma_octet_is_decimal(p[3]);
        let (a, b, c, d) = (octet(p[0])->0, octet(p[1])->0, octet(p[2])->0, octet(p[3])->0);
        lemma_four_octets(a, b, c, d, v);
        lemma_pieces_joined(s, '.', 0);
        assert(s.skip(0) =~= s);
        lemma_four_joined(p);
    }
}

proof fn lemma_four_octets(a: nat, b: nat, c: nat, d: nat, v: u32)
    requires
        a <= 255,
        b <= 255,
        c <= 255,
        d <= 255,
        v == (((a * 256 + b) * 256 + c) * 256 + d) as u32,
    ensures
        v / 16777216 == a,
        v / 65536 % 256 == b,
        v / 256 % 256 == c,
        v % 256 == d,
{
    assert(((a * 256 + b) * 256 + c) * 256 + d <= 0xffff_ffff);
}

proof fn lemma_four_joined(p: Seq<Seq<char>>)
    requires
        p.len() == 4,
    ensures
        joined(p, seq!['.']) == p[0] + seq!['.'] + p[1] + seq!['.'] + p[2] + seq!['.'] + p[3],
{
    let dot = seq!['.'];
    let p3 = p.drop_last();
    let p2 = p3.drop_last();
    let p1 = p2.drop_last();
    assert(joined(p1, dot) == p[0]);
    assert(joined(p2, dot) == p[0] + dot + p[1]);
    assert(joined(p3, dot) == p[0] + dot + p[1] + dot + p[2]);
}

proof fn lemma_octet_is_decimal(t: Seq<char>)
    ensures
        octet(t) matches Some(n) ==> t == decimal(n) && n <= 255,
{
    if octet(t) is Some {
        law_digits_are_written_back(t);
    }
}

/// Whether a text is a group of an IPv6 address: one to four hexadecimal digits.
pub open spec fn group_text(t: Seq<char>) -> bool {
    1 <= t.len() <= 4 && forall|i: int| 0 <= i < t.len() ==> is_hex_digit(#[trigger] t[i])
}

/// The numbers that groups stand for.
pub open spec fn group_numbers(v: Seq<Seq<char>>) -> Seq<u16> {
    v.map_values(|t: Seq<char>| number(t, 16) as u16)
}

proof fn lemma_group_texts(v: Seq<Seq<char>>)
    requires
        forall|i: int| 0 <= i < v.len() ==> group_text(#[trigger] v[i]),
    ensures
        hex_groups(v) == Some(group_numbers(v)),
        ending_groups(v) == Some(group_numbers(v)),
    decreases v.len(),
{
    if v.len() > 0 {
        let w = v.drop_last();
        let last = v[v.len() - 1];
        assert forall|i: int| 0 <= i < w.len() implies group_text(#[trigger] w[i]) by {
            assert(w[i] == v[i]);
        }
        lemma_group_texts(w);
        assert(group_text(last));
        assert(has_only(last, CharClass::HexDigit));
        assert(group_numbers(v) =~= group_numbers(w).push(number(last, 16) as u16));
        assert forall|i: int| 0 <= i < last.len() implies (#[trigger] last[i]) != '.' by {
            assert(is_hex_digit(last[i]));
        }
        lemma_no_dot(last);
    } else {
        assert(group_numbers(v) =~= Seq::empty());
    }
}

/// The parts of groups with colons between them are the groups.
proof fn lemma_group_parts(v: Seq<Seq<char>>)
    requires
        forall|i: int| 0 <= i < v.len() ==> group_text(#[trigger] v[i]),
    ensures
        colon_parts(joined(v, seq![':'])) == v,
        forall|i: int|
            0 <= i < joined(v, seq![':']).len() - 1 ==> !(#[trigger] joined(v, seq![':'])[i] == ':'
                && joined(v, seq![':'])[i + 1] == ':'),
        joined(v, seq![':']).len() > 0 ==> joined(v, seq![':'])[0] != ':' && joined(
            v,
            seq![':'],
        ).last() != ':',
        v.len() > 0 ==> joined(v, seq![':']).len() > 0,
    decreases v.len(),
{
    let t = joined(v, seq![':']);
    if v.len() == 0 {
        assert(colon_parts(t) =~= v);
    } else {
        let w = v.drop_last();
        let last = v[v.len() - 1];
        assert(group_text(last));
        assert forall|i: int| 0 <= i < w.len() implies group_text(#[trigger] w[i]) by {
            assert(w[i] == v[i]);
        }
        lemma_group_parts(w);
        assert forall|i: int| 0 <= i < v.len() implies !(#[trigger] v[i]).contains(':') by {
            assert(group_text(v[i]));
            if v[i].contains(':') {
                let j = choose|j: int| 0 <= j < v[i].len() && v[i][j] == ':';
                assert(is_hex_digit(v[i][j]));
            }
        }
        law_joined_texts_are_split_again(v, ':');
        let u = joined(w, seq![':']);
        assert(is_hex_digit(last[0]) && is_hex_digit(last[last.len() - 1]));
        if v.len() > 1 {
            assert(t == u + seq![':'] + last);
            assert forall|i: int| 0 <= i < t.len() - 1 implies !(#[trigger] t[i] == ':' && t[i + 1]
                == ':') by {
                if i < u.len() {
                    assert(t[i] == u[i]);
                    if i + 1 < u.len() {
                        assert(t[i + 1] == u[i + 1]);
                    } else {
                        assert(u[i] == u.last());
                    }
                } else if i > u.len() {
                    assert(t[i] == last[i - u.len() - 1]);
                    assert(is_hex_digit(last[i - u.len() - 1]));
                } else {
                    assert(t[i + 1] == last[0]);
                }
            }
            assert(t[0] == u[0]);
            assert(t.last() == last[last.len() - 1]);
        } else {
            assert forall|i: int| 0 <= i < t.len() implies #[trigger] t[i] != ':' by {
                assert(is_hex_digit(last[i]));
            }
        }
    }
}

/// Eight groups with colons between them are read as the address with these groups, and
/// fewer groups with a `::` among them as the address with zeros in its place.
pub proof fn law_groups_are_read_in_order(v: Seq<Seq<char>>, w: Seq<Seq<char>>)
    requires
        forall|i: int| 0 <= i < v.len() ==> group_text(#[trigger] v[i]),
        forall|i: int| 0 <= i < w.len() ==> group_text(#[trigger] w[i]),
    ensures
        v.len() == 8 ==> v6_value(joined(v, seq![':'])) == Some(
            groups_value(group_numbers(v)) as u128,
        ),
        v.len() != 8 ==> v6_value(joined(v, seq![':'])) is None,
        v.len() + w.len() <= 7 ==> v6_value(
            joined(v, seq![':']) + seq![':', ':'] + joined(w, seq![':']),
        ) == Some(
            groups_value(
                group_numbers(v) + zeros((8 - v.len() - w.len()) as nat) + group_numbers(w),
            ) as u128,
        ),
        v.len() + w.len() > 7 ==> v6_value(
            joined(v, seq![':']) + seq![':', ':'] + joined(w, seq![':']),
        ) is None,
{
    let pat = seq![':', ':'];
    let (a, b) = (joined(v, seq![':']), joined(w, seq![':']));
    lemma_group_texts(v);
    lemma_group_texts(w);
    lemma_group_parts(v);
    lemma_group_parts(w);
    assert forall|m: int| 0 <= m implies !#[trigger] occurs_at(a, pat, m) by {
        if occurs_at(a, pat, m) {
            assert(a.subrange(m, m + 2)[0] == a[m] && a.subrange(m, m + 2)[1] == a[m + 1]);
        }
    }
    lemma_not_found(a, pat, 0);
    let t = a + pat + b;
    let n = a.len() as int;
    assert forall|m: int| 0 <= m < n implies !#[trigger] occurs_at(t, pat, m) by {
        if occurs_at(t, pat, m) {
            assert(t.subrange(m, m + 2)[0] == t[m] && t.subrange(m, m + 2)[1] == t[m + 1]);
            assert(t[m] == a[m]);
            if m + 1 < n {
                assert(t[m + 1] == a[m + 1]);
            } else {
                assert(a[m] == a.last());
            }
        }
    }
    assert(t.subrange(n, n + 2) =~= pat);
    crate::text::lemma_found_at(t, pat, 0, n);
    assert(t.take(n) =~= a);
    assert(t.skip(n + 2) =~= b);
}

/// A written socket address is read back.
pub proof fn law_socket_addresses_are_read_back(a: SocketAddr)
    requires
        a.ip is V4 ==> a.scope == 0,
    ensures
        socket_value(a.text()) == Some(a),
{
    let d = decimal(a.port as nat);
    crate::numbers::lemma_decimal(a.port as nat);
    let t = a.text();
    match a.ip {
        IpAddr::V4(v) => {
            let x = v4_text(v);
            lemma_v4_read_back(v);
            lemma_v4_chars(v);
            let n = x.len() as int;
            assert forall|m: int| 0 <= m < n implies !CharClass::Is(':').has(#[trigger] t[m]) by {
                assert(t[m] == x[m]);
                assert(CharClass::Digit.has(x[m]) || x[m] == '.');
            }
            assert(t[0] == x[0]);
            assert(CharClass::Digit.has(x[0]) || x[0] == '.');
            crate::text::lemma_index_is(t, CharClass::Is(':'), 0, n);
            assert(t.take(n) =~= x);
            assert(t.skip(n + 1) =~= d);
        },
        IpAddr::V6(v) => {
            lemma_v6_read_back(v);
            lemma_address_text(IpAddr::V6(v));
            assert(IpAddr::V6(v).text() == v6_text(v));
            lemma_bracketed_socket(v6_text(v), v, a.scope, a.port);
        },
    }
}

proof fn lemma_bracketed_socket(x: Seq<char>, v: u128, scope: u32, port: u16)
    requires
        v6_value(x) == Some(v),
        forall|i: int|
            0 <= i < x.len() ==> CharClass::HexDigit.has(#[trigger] x[i]) || x[i] == ':' || x[i]
                == '.',
    ensures
        ({
            let t = if scope == 0 {
                seq!['['] + x + seq![']', ':'] + decimal(port as nat)
            } else {
                seq!['['] + x + seq!['%'] + decimal(scope as nat) + seq![']', ':'] + decimal(
                    port as nat,
                )
            };
            socket_value(t) == Some(SocketAddr { ip: IpAddr::V6(v), port, scope })
        }),
{
    let d = decimal(port as nat);
    let ds = decimal(scope as nat);
    crate::numbers::lemma_decimal(port as nat);
    crate::numbers::lemma_decimal(scope as nat);
    let z = if scope == 0 {
        Seq::empty()
    } else {
        seq!['%'] + ds
    };
    let inner = x + z;
    let t = seq!['['] + inner + seq![']', ':'] + d;
    if scope == 0 {
        assert(t =~= seq!['['] + x + seq![']', ':'] + d);
    } else {
        assert(t =~= seq!['['] + x + seq!['%'] + ds + seq![']', ':'] + d);
    }
    let end = inner.len() as int + 1;
    assert forall|m: int| 0 <= m < inner.len() implies #[trigger] inner[m] != ']' by {
        if m < x.len() {
            assert(inner[m] == x[m]);
        } else if m > x.len() {
            assert(inner[m] == ds[m - x.len() - 1]);
            assert(CharClass::Digit.has(ds[m - x.len() - 1]));
        }
    }
    assert forall|m: int| 0 <= m < end implies !CharClass::Is(']').has(#[trigger] t[m]) by {
        if m > 0 {
            assert(t[m] == inner[m - 1]);
        }
    }
    crate::text::lemma_index_is(t, CharClass::Is(']'), 0, end);
    assert(t.subrange(1, end) =~= inner);
    assert(t.skip(end + 2) =~= d);
    let k = CharClass::Is('%');
    assert forall|m: int| 0 <= m < x.len() implies !k.has(#[trigger] inner[m]) by {
        assert(inner[m] == x[m]);
    }
    assert(scoped_v6(inner) == Some((v, scope))) by {
        if scope == 0 {
            assert(inner =~= x);
            crate::text::lemma_index_is(inner, k, 0, x.len() as int);
        } else {
            assert(inner[x.len() as int] == '%');
            crate::text::lemma_index_is(inner, k, 0, x.len() as int);
            assert(inner.take(x.len() as int) =~= x);
            assert(inner.skip(x.len() as int + 1) =~= ds);
        }
    }
}

proof fn lemma_v6_read_back(v: u128)
    ensures
        v6_value(v6_text(v)) == Some(v),
{
    if v / 4294967296 == 65535 {
        lemma_v6_with_mapping(v);
    } else {
        lemma_v6_without_mapping(v);
    }
}

/// An address alone is no socket address.
pub proof fn lemma_address_is_no_socket(ip: IpAddr)
    ensures
        socket_value(ip.text()) is None,
{
    let x = ip.text();
    let k = CharClass::Is(':');
    lemma_address_text(ip);
    assert(CharClass::HexDigit.has(x[0]) || x[0] == ':' || x[0] == '.');
    crate::text::lemma_index_from(x, k, 0);
    let j = first_index(x, k);
    match ip {
        IpAddr::V4(v) => {
            if j < x.len() {
                assert(k.has(x[j]));
                assert(has_any(x, k));
            }
        },
        IpAddr::V6(v) => {
            let g = value_groups(v as nat, 8);
            let i = longest_run(g, 0);
            let n = zero_run(g, i);
            let head = x.take(j);
            assert forall|m: int| 0 <= m < head.len() implies (#[trigger] head[m]) != '.' by {
                assert(!k.has(x[m]));
                if v / 4294967296 == 65535 {
                    assert(x[0] == ':');
                } else {
                    lemma_v6_without_dots(v, m);
                }
            }
            lemma_no_dot(head);
        },
    }
}

proof fn lemma_v6_without_dots(v: u128, m: int)
    requires
        v / 4294967296 != 65535,
        0 <= m < v6_text(v).len(),
    ensures
        v6_text(v)[m] != '.',
{
    let g = value_groups(v as nat, 8);
    let i = longest_run(g, 0);
    let n = zero_run(g, i);
    lemma_value_groups_len(v as nat, 8);
    lemma_longest_run(g, 0);
    lemma_zero_run(g, i);
    lemma_groups_chars(g);
    lemma_groups_chars(g.take(i));
    lemma_groups_chars(g.skip(i + n));
    let t = v6_text(v);
    let a = groups_text(g.take(i));
    if n > 1 {
        if m < a.len() {
            assert(t[m] == a[m]);
        } else if m >= a.len() + 2 {
            assert(t[m] == groups_text(g.skip(i + n))[m - a.len() - 2]);
        }
    }
}

} // verus!

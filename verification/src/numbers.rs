//! Numbers as text: decimal and hexadecimal digits, and port numbers.

use vstd::prelude::*;
use vstd::slice::slice_subrange;

use crate::text::{contains_only, has_only, string_of, CharClass};

verus! {

/// The character of a digit below sixteen.
pub open spec fn digit_char(d: int) -> char {
    if d < 10 {
        ('0' as u8 + d) as u8 as char
    } else {
        ('a' as u8 + (d - 10)) as u8 as char
    }
}

/// The value of a decimal or hexadecimal digit.
pub open spec fn digit_value(c: char) -> int {
    if '0' <= c <= '9' {
        c as int - '0' as int
    } else if 'a' <= c <= 'f' {
        c as int - 'a' as int + 10
    } else {
        c as int - 'A' as int + 10
    }
}

/// The digits of `n` in the given radix, without leading zeros.
pub open spec fn digits(n: nat, radix: nat) -> Seq<char>
    decreases n,
    via digits_decreases
{
    if radix < 2 || n < radix {
        seq![digit_char(n as int)]
    } else {
        digits(n / radix, radix).push(digit_char((n % radix) as int))
    }
}

#[via_fn]
proof fn digits_decreases(n: nat, radix: nat) {
    if radix >= 2 && n >= radix {
        lemma_quotient_is_less(n, radix);
    }
}

proof fn lemma_quotient_is_less(n: nat, radix: nat)
    requires
        2 <= radix <= n,
    ensures
        n / radix < n,
{
    assert(n / radix < n) by (nonlinear_arith)
        requires
            2 <= radix <= n,
    ;
}

/// The decimal form of `n`.
pub open spec fn decimal(n: nat) -> Seq<char> {
    digits(n, 10)
}

/// The lowercase hexadecimal form of `n`, without leading zeros.
pub open spec fn hex(n: nat) -> Seq<char> {
    digits(n, 16)
}

/// The last `width` lowercase hexadecimal digits of `n`.
pub open spec fn padded_hex(n: nat, width: nat) -> Seq<char>
    decreases width,
{
    if width == 0 {
        Seq::empty()
    } else {
        padded_hex(n / 16, (width - 1) as nat).push(digit_char((n % 16) as int))
    }
}

/// The number that a sequence of digits stands for.
pub open spec fn number(s: Seq<char>, radix: nat) -> nat
    decreases s.len(),
{
    if s.len() == 0 {
        0
    } else {
        number(s.drop_last(), radix) * radix + digit_value(s.last()) as nat
    }
}

fn digit_to_char(d: u8) -> (c: char)
    requires
        d < 16,
    ensures
        c == digit_char(d as int),
{
    if d < 10 {
        (48u8 + d) as char
    } else {
        (97u8 + (d - 10)) as char
    }
}

fn char_to_digit(c: char) -> (d: u8)
    requires
        CharClass::HexDigit.has(c),
    ensures
        d == digit_value(c),
        d < 16,
        CharClass::Digit.has(c) ==> d < 10,
{
    let b: u8 = c as u8;
    if '0' <= c && c <= '9' {
        b - 48u8
    } else if 'a' <= c && c <= 'f' {
        b - 97u8 + 10
    } else {
        b - 65u8 + 10
    }
}

fn digits_of(n: u128, radix: u8) -> (r: Vec<char>)
    requires
        2 <= radix <= 16,
    ensures
        r@ == digits(n as nat, radix as nat),
    decreases n,
{
    let m: u128 = radix as u128;
    if n < m {
        let mut v: Vec<char> = Vec::new();
        v.push(digit_to_char(n as u8));
        v
    } else {
        proof {
            lemma_quotient_is_less(n as nat, m as nat);
        }
        let mut v = digits_of(n / m, radix);
        v.push(digit_to_char((n % m) as u8));
        v
    }
}

/// Writes a number in decimal.
pub fn decimal_of(n: u128) -> (r: String)
    ensures
        r@ == decimal(n as nat),
{
    string_of(digits_of(n, 10).as_slice())
}

/// Writes a count in decimal.
pub fn decimal_of_usize(n: usize) -> (r: String)
    ensures
        r@ == decimal(n as nat),
{
    decimal_of(n as u128)
}

/// Writes a number in lowercase hexadecimal.
pub fn hex_of(n: u16) -> (r: Vec<char>)
    ensures
        r@ == hex(n as nat),
{
    digits_of(n as u128, 16)
}

/// Writes a number as sixteen lowercase hexadecimal digits.
pub fn padded_hex_of(n: u64) -> (r: String)
    ensures
        r@ == padded_hex(n as nat, 16),
{
    string_of(padded_digits(n, 16).as_slice())
}

fn padded_digits(n: u64, width: u8) -> (r: Vec<char>)
    ensures
        r@ == padded_hex(n as nat, width as nat),
    decreases width,
{
    if width == 0 {
        Vec::new()
    } else {
        let mut v = padded_digits(n / 16, width - 1);
        v.push(digit_to_char((n % 16) as u8));
        v
    }
}

/// Appending a digit shifts the number by one place.
pub proof fn lemma_number_push(s: Seq<char>, c: char, radix: nat)
    ensures
        number(s.push(c), radix) == number(s, radix) * radix + digit_value(c) as nat,
{
    assert(s.push(c).drop_last() =~= s);
}

/// A longer run of digits is not a smaller number.
pub proof fn lemma_number_grows(s: Seq<char>, i: int, radix: nat)
    requires
        0 <= i <= s.len(),
        radix >= 1,
    ensures
        number(s.take(i), radix) <= number(s, radix),
    decreases s.len(),
{
    if i < s.len() {
        lemma_number_grows(s.drop_last(), i, radix);
        assert(s.drop_last().take(i) =~= s.take(i));
        assert(number(s.drop_last(), radix) <= number(s.drop_last(), radix) * radix)
            by (nonlinear_arith)
            requires
                radix >= 1,
        ;
    } else {
        assert(s.take(i) =~= s);
    }
}

/// Reads decimal digits as a number, if it is at most `max`.
pub fn number_up_to(s: &[char], max: u32) -> (r: Option<u32>)
    requires
        has_only(s@, CharClass::Digit),
    ensures
        number(s@, 10) <= max ==> r == Some(number(s@, 10) as u32),
        number(s@, 10) > max ==> r is None,
{
    let mut n: u64 = 0;
    let mut i: usize = 0;
    while i < s.len()
        invariant
            i <= s.len(),
            has_only(s@, CharClass::Digit),
            n == number(s@.take(i as int), 10),
            n <= max,
        decreases s.len() - i,
    {
        assert(CharClass::Digit.has(s@[i as int]));
        let d: u8 = char_to_digit(s[i]);
        proof {
            lemma_number_push(s@.take(i as int), s@[i as int], 10);
            assert(s@.take(i as int).push(s@[i as int]) =~= s@.take(i + 1));
        }
        n = n * 10 + d as u64;
        i += 1;
        if n > max as u64 {
            proof {
                lemma_number_grows(s@, i as int, 10);
            }
            return None;
        }
    }
    assert(s@.take(i as int) =~= s@);
    Some(n as u32)
}

/// Reads up to four hexadecimal digits as a number.
pub fn hex_number(s: &[char]) -> (r: u16)
    requires
        has_only(s@, CharClass::HexDigit),
        s@.len() <= 4,
    ensures
        r == number(s@, 16),
{
    let mut n: u32 = 0;
    let mut bound: u32 = 1;
    let mut i: usize = 0;
    while i < s.len()
        invariant
            i <= s.len() <= 4,
            has_only(s@, CharClass::HexDigit),
            n == number(s@.take(i as int), 16),
            n < bound,
            i == 0 ==> bound == 1,
            i == 1 ==> bound == 16,
            i == 2 ==> bound == 256,
            i == 3 ==> bound == 4096,
            i == 4 ==> bound == 65536,
        decreases s.len() - i,
    {
        assert(CharClass::HexDigit.has(s@[i as int]));
        let d: u8 = char_to_digit(s[i]);
        proof {
            lemma_number_push(s@.take(i as int), s@[i as int], 16);
            assert(s@.take(i as int).push(s@[i as int]) =~= s@.take(i + 1));
        }
        n = n * 16 + d as u32;
        bound = bound * 16;
        i += 1;
    }
    assert(s@.take(i as int) =~= s@);
    n as u16
}

/// Writing a number and reading it back gives the number.
pub proof fn lemma_number_of_digits(n: nat, radix: nat)
    requires
        2 <= radix <= 16,
    ensures
        number(digits(n, radix), radix) == n,
        digits(n, radix).len() >= 1,
        forall|i: int|
            0 <= i < digits(n, radix).len() ==> is_digit_below(
                #[trigger] digits(n, radix)[i],
                radix,
            ),
    decreases n,
{
    let d = digits(n, radix);
    if n < radix {
        assert(d =~= Seq::<char>::empty().push(digit_char(n as int)));
        lemma_number_push(Seq::empty(), digit_char(n as int), radix);
        assert(0 * radix == 0) by (nonlinear_arith);
    } else {
        lemma_quotient_is_less(n, radix);
        lemma_number_of_digits(n / radix, radix);
        lemma_number_push(digits(n / radix, radix), digit_char((n % radix) as int), radix);
        assert(n == (n / radix) * radix + n % radix) by (nonlinear_arith)
            requires
                radix >= 2,
        ;
    }
}

/// Whether `c` is a lowercase digit of the radix.
pub open spec fn is_digit_below(c: char, radix: nat) -> bool {
    &&& ('0' <= c <= '9') || ('a' <= c <= 'f')
    &&& 0 <= digit_value(c) < radix
}

/// A number below the `k`-th power of the radix has at most `k` digits, and only zero begins
/// with a zero.
pub proof fn lemma_digits_len(n: nat, radix: nat, k: nat)
    requires
        2 <= radix <= 16,
        n < vstd::arithmetic::power::pow(radix as int, k),
        k >= 1,
    ensures
        1 <= digits(n, radix).len() <= k,
        n >= 1 ==> digits(n, radix)[0] != '0',
        n == 0 ==> digits(n, radix) == seq!['0'],
    decreases k,
{
    vstd::arithmetic::power::lemma_pow1(radix as int);
    if n >= radix {
        if k == 1 {
            assert(false);
        }
        vstd::arithmetic::power::lemma_pow_adds(radix as int, 1, (k - 1) as nat);
        let p = vstd::arithmetic::power::pow(radix as int, (k - 1) as nat);
        assert(n / radix < p) by (nonlinear_arith)
            requires
                n < radix * p,
                radix >= 2,
        ;
        assert(n / radix >= 1) by (nonlinear_arith)
            requires
                n >= radix,
                radix >= 2,
        ;
        lemma_digits_len(n / radix, radix, (k - 1) as nat);
    }
}

// ---------------------------------------------------------------------------
// Ports

/// The port that a text names: an optional `+`, then decimal digits, between 1
/// and 65535.
pub open spec fn port_number(s: Seq<char>) -> Option<u16> {
    let d = if s.len() > 1 && s[0] == '+' {
        s.skip(1)
    } else {
        s
    };
    if d.len() > 0 && has_only(d, CharClass::Digit) && 1 <= number(d, 10) <= 65535 {
        Some(number(d, 10) as u16)
    } else {
        None
    }
}

/// Reads a port number.
pub fn read_port(s: &[char]) -> (r: Option<u16>)
    ensures
        r == port_number(s@),
{
    let d = if s.len() > 1 && s[0] == '+' {
        slice_subrange(s, 1, s.len())
    } else {
        s
    };
    assert(s@.len() > 1 && s@[0] == '+' ==> d@ =~= s@.skip(1));
    if d.len() == 0 || !contains_only(d, CharClass::Digit) {
        return None;
    }
    match number_up_to(d, 65535) {
        Some(n) => {
            if n >= 1 {
                Some(n as u16)
            } else {
                None
            }
        },
        None => None,
    }
}

/// A written number is made of digits.
pub proof fn lemma_decimal(n: nat)
    ensures
        decimal(n).len() >= 1,
        has_only(decimal(n), CharClass::Digit),
        number(decimal(n), 10) == n,
{
    lemma_number_of_digits(n, 10);
    assert forall|i: int| 0 <= i < decimal(n).len() implies CharClass::Digit.has(
        #[trigger] decimal(n)[i],
    ) by {
        assert(is_digit_below(decimal(n)[i], 10));
    }
}

/// A written port is read back.
pub proof fn lemma_port_read_back(p: u16)
    requires
        p > 0,
    ensures
        port_number(decimal(p as nat)) == Some(p),
{
    lemma_decimal(p as nat);
    assert(CharClass::Digit.has(decimal(p as nat)[0]));
}

/// A number is written without leading zeros: digits that do not begin with a zero are the
/// decimal form of the number that they stand for.
pub proof fn law_digits_are_written_back(t: Seq<char>)
    requires
        t.len() > 0,
        has_only(t, CharClass::Digit),
        t.len() == 1 || t[0] != '0',
    ensures
        decimal(number(t, 10)) == t,
        t[0] != '0' ==> number(t, 10) > 0,
    decreases t.len(),
{
    let c = t.last();
    assert(CharClass::Digit.has(t[t.len() - 1]));
    let d = digit_value(c);
    assert(0 <= d < 10);
    assert(digit_char(d) == c);
    let w = t.drop_last();
    if t.len() == 1 {
        assert(number(w, 10) == 0);
        assert(t =~= seq![c]);
    } else {
        assert forall|i: int| 0 <= i < w.len() implies CharClass::Digit.has(#[trigger] w[i]) by {
            assert(w[i] == t[i]);
        }
        assert(w[0] == t[0]);
        law_digits_are_written_back(w);
        let n = number(t, 10);
        let m = number(w, 10);
        assert(n == m * 10 + d as nat);
        assert(n / 10 == m && n % 10 == d);
        assert(w.push(c) =~= t);
    }
}

/// Exactly the numbers from 1 to 65535 are ports when they are written in decimal.
pub proof fn law_ports_are_one_to_65535(n: nat)
    ensures
        port_number(decimal(n)) is Some <==> 1 <= n <= 65535,
        1 <= n <= 65535 ==> port_number(decimal(n)) == Some(n as u16),
{
    lemma_decimal(n);
    assert(CharClass::Digit.has(decimal(n)[0]));
}

/// A port is written with decimal digits only, behind a plus sign or not.
pub proof fn law_ports_are_made_of_digits(s: Seq<char>, i: int)
    requires
        0 <= i < s.len(),
        port_number(s) is Some,
    ensures
        '0' <= s[i] <= '9' || (i == 0 && s[i] == '+' && s.len() > 1),
{
    if s.len() > 1 && s[0] == '+' {
        if i > 0 {
            assert(CharClass::Digit.has(s.skip(1)[i - 1]));
        }
    } else {
        assert(CharClass::Digit.has(s[i]));
    }
}

/// Digits are written as 0 to 9 and small a to f, and capitals are read as well.
pub proof fn law_digits_have_their_values(d: int, c: char)
    requires
        0 <= d < 16,
    ensures
        d < 10 ==> digit_char(d) as int == '0' as int + d,
        d >= 10 ==> digit_char(d) as int == 'a' as int + d - 10,
        digit_value(digit_char(d)) == d,
        '0' <= c <= '9' ==> digit_value(c) == c as int - '0' as int,
        'a' <= c <= 'f' ==> digit_value(c) == c as int - 'a' as int + 10,
        'A' <= c <= 'F' ==> digit_value(c) == c as int - 'A' as int + 10,
        number(Seq::empty(), 10) == 0,
{
}

} // verus!

//! Natural numbers of any size.

use vstd::prelude::*;

verus! {

/// A natural number, as digits to the base of two to the power of 64, the lowest first.
pub struct Big {
    digits: Vec<u64>,
}

/// The base of the digits.
spec fn base() -> nat {
    0x1_0000_0000_0000_0000
}

/// A digit; zero beyond the last one.
spec fn digit(s: Seq<u64>, i: int) -> int {
    if 0 <= i < s.len() {
        s[i] as int
    } else {
        0
    }
}

/// The number that the digits from `i` on stand for.
spec fn rest(s: Seq<u64>, i: int) -> nat
    decreases s.len() - i,
{
    if i < 0 || i >= s.len() {
        0
    } else {
        s[i] as nat + base() * rest(s, i + 1)
    }
}

/// A product of digits with what is carried over fits two digits.
proof fn lemma_digit_product(a: u64, m: u64, carry: u64)
    ensures
        0 <= a * m + carry <= u128::MAX,
        0 <= a * m <= u128::MAX,
{
    assert(0 <= a * m <= 0xffff_ffff_ffff_ffff * 0xffff_ffff_ffff_ffff) by (nonlinear_arith)
        requires
            0 <= a <= 0xffff_ffff_ffff_ffff,
            0 <= m <= 0xffff_ffff_ffff_ffff,
    ;
}

/// The lower and the upper digit of a number of two digits.
fn cut(x: u128) -> (r: (u64, u64))
    ensures
        x == r.0 + base() * r.1,
{
    let lo: u128 = x % 0x1_0000_0000_0000_0000;
    let hi: u128 = x / 0x1_0000_0000_0000_0000;
    (lo as u64, hi as u64)
}

fn get(v: &Vec<u64>, i: usize) -> (r: u64)
    ensures
        r == digit(v@, i as int),
{
    if i < v.len() {
        v[i]
    } else {
        0
    }
}

/// Puts the product of the digits from `i` on with `m`, and what is carried over, behind
/// other digits.
fn times_from(v: &Vec<u64>, i: usize, m: u64, carry: u64, out: &mut Vec<u64>)
    requires
        i <= v@.len(),
    ensures
        old(out)@.is_prefix_of(final(out)@),
        rest(final(out)@, old(out)@.len() as int) == rest(v@, i as int) * m + carry,
    decreases v.len() - i,
{
    let ghost n = out@.len() as int;
    let ghost before = out@;
    if i == v.len() {
        out.push(carry);
        assert(rest(out@, n + 1) == 0);
        assert(0 * m == 0);
        return;
    }
    let d: u64 = v[i];
    proof {
        lemma_digit_product(d, m, carry);
    }
    let (lo, hi) = cut(d as u128 * m as u128 + carry as u128);
    out.push(lo);
    let ghost middle = out@;
    times_from(v, i + 1, m, hi, out);
    proof {
        assert(middle[n] == lo);
        assert(out@[n] == middle[n]);
        assert(before =~= out@.take(n)) by {
            assert(middle == out@.take(n + 1));
            assert(middle.take(n) =~= before);
        }
        let r = rest(v@, i + 1);
        let (di, mi) = (d as nat, m as nat);
        assert((di + base() * r) * mi == di * mi + base() * (r * mi)) by (nonlinear_arith);
    }
}

/// Puts the sum of the digits from `i` on, and what is carried over, behind other digits.
fn plus_from(a: &Vec<u64>, b: &Vec<u64>, i: usize, carry: u64, out: &mut Vec<u64>)
    requires
        i <= a@.len() || i <= b@.len(),
        carry <= 1,
    ensures
        old(out)@.is_prefix_of(final(out)@),
        rest(final(out)@, old(out)@.len() as int) == rest(a@, i as int) + rest(b@, i as int)
            + carry,
    decreases a.len() + b.len() - i,
{
    let ghost n = out@.len() as int;
    let ghost before = out@;
    if i >= a.len() && i >= b.len() {
        out.push(carry);
        assert(rest(out@, n + 1) == 0);
        return;
    }
    let (lo, hi) = cut(get(a, i) as u128 + get(b, i) as u128 + carry as u128);
    out.push(lo);
    let ghost middle = out@;
    plus_from(a, b, i + 1, hi, out);
    proof {
        assert(middle[n] == lo);
        assert(out@[n] == middle[n]);
        assert(before =~= out@.take(n)) by {
            assert(middle == out@.take(n + 1));
            assert(middle.take(n) =~= before);
        }
    }
}

/// Whether the digits from `i` on stand for a larger number than others, and whether for
/// the same.
fn compare_from(a: &Vec<u64>, b: &Vec<u64>, i: usize) -> (r: (bool, bool))
    requires
        i <= a@.len() || i <= b@.len(),
    ensures
        r.0 == (rest(a@, i as int) > rest(b@, i as int)),
        r.1 == (rest(a@, i as int) == rest(b@, i as int)),
    decreases a.len() + b.len() - i,
{
    if i >= a.len() && i >= b.len() {
        return (false, true);
    }
    let (larger, same) = compare_from(a, b, i + 1);
    let (x, y) = (get(a, i), get(b, i));
    if same {
        (x > y, x == y)
    } else {
        (larger, false)
    }
}

impl Big {
    /// The number.
    pub closed spec fn value(&self) -> nat {
        rest(self.digits@, 0)
    }

    /// The number of one digit.
    pub fn of(n: u64) -> (r: Self)
        ensures
            r.value() == n,
    {
        let digits: Vec<u64> = vec![n];
        assert(rest(digits@, 1) == 0);
        Big { digits }
    }

    /// The product with a number of one digit.
    pub fn times(&self, m: u64) -> (r: Self)
        ensures
            r.value() == self.value() * m,
    {
        let mut digits: Vec<u64> = Vec::new();
        times_from(&self.digits, 0, m, 0, &mut digits);
        Big { digits }
    }

    /// The sum.
    pub fn plus(&self, other: &Big) -> (r: Self)
        ensures
            r.value() == self.value() + other.value(),
    {
        let mut digits: Vec<u64> = Vec::new();
        plus_from(&self.digits, &other.digits, 0, 0, &mut digits);
        Big { digits }
    }

    /// Tests whether the number is at least another one.
    pub fn is_at_least(&self, other: &Big) -> (r: bool)
        ensures
            r == (self.value() >= other.value()),
    {
        let (larger, same) = compare_from(&self.digits, &other.digits, 0);
        larger || same
    }
}

} // verus!

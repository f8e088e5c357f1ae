//! Sorting of plain values.

use vstd::prelude::*;
use vstd::relations::{sorted_by, total_ordering};

use crate::ip::IpAddr;

verus! {

/// Plain values with a total order.
pub trait Ordered: Copy {
    /// Whether the value comes no later than another.
    spec fn before(self, other: Self) -> bool;

    /// Tests whether the value comes no later than another.
    fn comes_before(self, other: Self) -> (r: bool)
        ensures
            r == self.before(other),
    ;

    /// The order is total.
    proof fn lemma_total()
        ensures
            total_ordering(|a: Self, b: Self| a.before(b)),
    ;
}

impl Ordered for u128 {
    open spec fn before(self, other: u128) -> bool {
        self <= other
    }

    fn comes_before(self, other: u128) -> (r: bool) {
        self <= other
    }

    proof fn lemma_total() {
    }
}

impl Ordered for IpAddr {
    open spec fn before(self, other: IpAddr) -> bool {
        self.le(other)
    }

    fn comes_before(self, other: IpAddr) -> (r: bool) {
        self.no_later_than(other)
    }

    proof fn lemma_total() {
    }
}

/// The order as a relation.
pub open spec fn item_order<T: Ordered>() -> spec_fn(T, T) -> bool {
    |a: T, b: T| a.before(b)
}

/// The items in order.
pub open spec fn sorted_items<T: Ordered>(v: Seq<T>) -> Seq<T> {
    v.sort_by(item_order::<T>())
}

/// Sorts plain values.
pub fn sort_items<T: Ordered>(v: &Vec<T>) -> (r: Vec<T>)
    ensures
        r@ == sorted_items(v@),
        r@.len() == v@.len(),
        sorted_by(r@, item_order::<T>()),
{
    let r = sort_part(v, 0, v.len());
    proof {
        broadcast use vstd::seq_lib::group_to_multiset_ensures;

        assert(v@.subrange(0, v@.len() as int) =~= v@);
        T::lemma_total();
        assert(total_ordering(item_order::<T>()));
        v@.lemma_sort_by_ensures(item_order::<T>());
        vstd::seq_lib::lemma_sorted_unique(r@, sorted_items(v@), item_order::<T>());
        assert(r@.len() == r@.to_multiset().len());
        assert(v@.len() == v@.to_multiset().len());
    }
    r
}

fn sort_part<T: Ordered>(v: &Vec<T>, lo: usize, hi: usize) -> (r: Vec<T>)
    requires
        lo <= hi <= v@.len(),
    ensures
        r@.to_multiset() == v@.subrange(lo as int, hi as int).to_multiset(),
        sorted_by(r@, item_order::<T>()),
    decreases hi - lo,
{
    if hi - lo < 2 {
        let mut out: Vec<T> = Vec::new();
        if lo < hi {
            out.push(v[lo]);
        }
        assert(out@ =~= v@.subrange(lo as int, hi as int));
        return out;
    }
    let mid: usize = lo + (hi - lo) / 2;
    let left = sort_part(v, lo, mid);
    let right = sort_part(v, mid, hi);
    let out = merge_parts(&left, &right);
    proof {
        let l = v@.subrange(lo as int, mid as int);
        let r = v@.subrange(mid as int, hi as int);
        vstd::seq_lib::lemma_multiset_commutative(l, r);
        assert(l + r =~= v@.subrange(lo as int, hi as int));
    }
    out
}

fn merge_parts<T: Ordered>(a: &Vec<T>, b: &Vec<T>) -> (r: Vec<T>)
    requires
        sorted_by(a@, item_order::<T>()),
        sorted_by(b@, item_order::<T>()),
    ensures
        r@.to_multiset() == a@.to_multiset().add(b@.to_multiset()),
        sorted_by(r@, item_order::<T>()),
{
    let ghost le = item_order::<T>();
    let mut out: Vec<T> = Vec::new();
    let mut i: usize = 0;
    let mut j: usize = 0;
    proof {
        T::lemma_total();
        broadcast use vstd::seq_lib::group_to_multiset_ensures;

        assert(a@.take(0) =~= Seq::<T>::empty());
        assert(b@.take(0) =~= Seq::<T>::empty());
        assert(out@ =~= Seq::<T>::empty());
        assert(out@.to_multiset() =~= a@.take(0).to_multiset().add(b@.take(0).to_multiset()));
    }
    while i < a.len() || j < b.len()
        invariant
            le == item_order::<T>(),
            total_ordering(le),
            i <= a@.len(),
            j <= b@.len(),
            sorted_by(a@, le),
            sorted_by(b@, le),
            sorted_by(out@, le),
            forall|n: int, m: int|
                0 <= n < out@.len() && i <= m < a@.len() ==> le(
                    #[trigger] out@[n],
                    #[trigger] a@[m],
                ),
            forall|n: int, m: int|
                0 <= n < out@.len() && j <= m < b@.len() ==> le(
                    #[trigger] out@[n],
                    #[trigger] b@[m],
                ),
            out@.to_multiset() == a@.take(i as int).to_multiset().add(
                b@.take(j as int).to_multiset(),
            ),
        decreases a.len() - i + b.len() - j,
    {
        let ghost before = out@;
        let from_a = if i >= a.len() {
            false
        } else if j >= b.len() {
            true
        } else {
            a[i].comes_before(b[j])
        };
        proof {
            if from_a {
                assert(a@.take(i + 1) =~= a@.take(i as int).push(a@[i as int]));
                assert forall|m: int| j <= m < b@.len() implies le(
                    a@[i as int],
                    #[trigger] b@[m],
                ) by {
                    assert(le(a@[i as int], b@[j as int]));
                    if j < m {
                        assert(le(b@[j as int], b@[m]));
                    }
                }
            } else {
                assert(b@.take(j + 1) =~= b@.take(j as int).push(b@[j as int]));
                assert forall|m: int| i <= m < a@.len() implies le(
                    b@[j as int],
                    #[trigger] a@[m],
                ) by {
                    assert(le(a@[i as int], b@[j as int]) || le(b@[j as int], a@[i as int]));
                    if i < m {
                        assert(le(a@[i as int], a@[m]));
                    }
                }
            }
        }
        if from_a {
            out.push(a[i]);
            i += 1;
        } else {
            out.push(b[j]);
            j += 1;
        }
        proof {
            broadcast use vstd::seq_lib::group_to_multiset_ensures;

            assert(out@.to_multiset() =~= a@.take(i as int).to_multiset().add(
                b@.take(j as int).to_multiset(),
            ));
        }
    }
    assert(a@.take(i as int) =~= a@);
    assert(b@.take(j as int) =~= b@);
    out
}

/// Addresses are sorted by family and number, the older family first, and numbers by size;
/// sorting keeps every item.
pub proof fn law_items_are_sorted_by_size(v: Seq<IpAddr>, w: Seq<u128>, i: int, j: int)
    requires
        0 <= i < j,
    ensures
        sorted_items(v).len() == v.len(),
        sorted_items(w).len() == w.len(),
        sorted_items(v).to_multiset() == v.to_multiset(),
        sorted_items(w).to_multiset() == w.to_multiset(),
        j < w.len() ==> sorted_items(w)[i] <= sorted_items(w)[j],
        j < v.len() ==> match (sorted_items(v)[i], sorted_items(v)[j]) {
            (IpAddr::V4(a), IpAddr::V4(b)) => a <= b,
            (IpAddr::V6(a), IpAddr::V6(b)) => a <= b,
            (IpAddr::V4(_), IpAddr::V6(_)) => true,
            (IpAddr::V6(_), IpAddr::V4(_)) => false,
        },
{
    broadcast use vstd::seq_lib::group_to_multiset_ensures;

    <IpAddr as Ordered>::lemma_total();
    <u128 as Ordered>::lemma_total();
    v.lemma_sort_by_ensures(item_order::<IpAddr>());
    w.lemma_sort_by_ensures(item_order::<u128>());
    assert(sorted_items(v).len() == sorted_items(v).to_multiset().len());
    assert(sorted_items(w).len() == sorted_items(w).to_multiset().len());
    assert(v.len() == v.to_multiset().len());
    assert(w.len() == w.to_multiset().len());
    let (le4, le) = (item_order::<IpAddr>(), item_order::<u128>());
    if j < w.len() {
        assert(le(sorted_items(w)[i], sorted_items(w)[j]));
    }
    if j < v.len() {
        assert(le4(sorted_items(v)[i], sorted_items(v)[j]));
    }
}

} // verus!

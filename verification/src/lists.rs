//! Lists without repetition, counting, grouping, tables by name, and alphabetical order.

use vstd::prelude::*;
use vstd::relations::{sorted_by, total_ordering};

use crate::text::{chars_of, same_str, texts};

verus! {

/// `out` with `x` at its end, unless it already holds `x`.
pub open spec fn added<A>(out: Seq<A>, x: A) -> Seq<A> {
    if out.contains(x) {
        out
    } else {
        out.push(x)
    }
}

/// `out` with each item of `xs` added in turn.
pub open spec fn all_added<A>(out: Seq<A>, xs: Seq<A>) -> Seq<A>
    decreases xs.len(),
{
    if xs.len() == 0 {
        out
    } else {
        added(all_added(out, xs.drop_last()), xs.last())
    }
}

/// Adding keeps a list free of repetition and loses nothing.
pub proof fn lemma_added<A>(out: Seq<A>, x: A)
    ensures
        out.no_duplicates() ==> added(out, x).no_duplicates(),
        added(out, x).contains(x),
        out.is_prefix_of(added(out, x)),
        forall|y: A| #[trigger] added(out, x).contains(y) <==> out.contains(y) || y == x,
{
    let r = added(out, x);
    if !out.contains(x) {
        assert(r[out.len() as int] == x);
        assert forall|y: A| out.contains(y) implies r.contains(y) by {
            let i = choose|i: int| 0 <= i < out.len() && out[i] == y;
            assert(r[i] == y);
        }
    }
}

/// Adding several items keeps a list free of repetition and loses nothing.
pub proof fn lemma_all_added<A>(out: Seq<A>, xs: Seq<A>)
    ensures
        out.no_duplicates() ==> all_added(out, xs).no_duplicates(),
        out.is_prefix_of(all_added(out, xs)),
        forall|y: A| #[trigger]
            all_added(out, xs).contains(y) <==> out.contains(y) || xs.contains(y),
    decreases xs.len(),
{
    if xs.len() > 0 {
        let r = all_added(out, xs.drop_last());
        lemma_all_added(out, xs.drop_last());
        lemma_added(r, xs.last());
        assert forall|y: A| #[trigger]
            all_added(out, xs).contains(y) <==> out.contains(y) || xs.contains(y) by {
            if xs.contains(y) {
                let i = choose|i: int| 0 <= i < xs.len() && xs[i] == y;
                if i < xs.len() - 1 {
                    assert(xs.drop_last()[i] == y);
                }
            }
            if xs.drop_last().contains(y) {
                let i = choose|i: int| 0 <= i < xs.drop_last().len() && xs.drop_last()[i] == y;
                assert(xs[i] == y);
            }
            if y == xs.last() {
                assert(xs[xs.len() - 1] == y);
            }
        }
    }
}

/// Adding two lists in turn is adding their concatenation.
pub proof fn lemma_all_added_concat<A>(out: Seq<A>, xs: Seq<A>, ys: Seq<A>)
    ensures
        all_added(all_added(out, xs), ys) == all_added(out, xs + ys),
    decreases ys.len(),
{
    if ys.len() == 0 {
        assert(xs + ys =~= xs);
    } else {
        lemma_all_added_concat(out, xs, ys.drop_last());
        assert((xs + ys).drop_last() =~= xs + ys.drop_last());
    }
}

/// What a list with one more item holds.
pub proof fn lemma_push_contains<A>(v: Seq<A>, a: A, x: A)
    ensures
        v.push(a).contains(x) <==> v.contains(x) || a == x,
{
    let w = v.push(a);
    if v.contains(x) {
        let i = choose|i: int| 0 <= i < v.len() && v[i] == x;
        assert(w[i] == x);
    }
    assert(w[v.len() as int] == a);
    if w.contains(x) {
        let i = choose|i: int| 0 <= i < w.len() && w[i] == x;
        if i < v.len() {
            assert(v[i] == x);
        }
    }
}

/// Tests whether a list holds a string.
pub fn holds(list: &Vec<String>, s: &str) -> (r: bool)
    ensures
        r == texts(list@).contains(s@),
{
    let mut i: usize = 0;
    while i < list.len()
        invariant
            i <= list@.len(),
            forall|j: int| 0 <= j < i ==> texts(list@)[j] != s@,
        decreases list.len() - i,
    {
        if same_str(list[i].as_str(), s) {
            assert(texts(list@)[i as int] == s@);
            return true;
        }
        i += 1;
    }
    false
}

/// Adds a string to a list unless the list already holds it.
pub fn add_unique(list: &mut Vec<String>, s: String)
    ensures
        texts(final(list)@) == added(texts(old(list)@), s@),
{
    if !holds(list, s.as_str()) {
        list.push(s);
        assert(texts(list@) =~= texts(old(list)@).push(s@));
    }
}

/// Adds each string that the list does not hold yet.
pub fn add_all_unique(list: &mut Vec<String>, more: &Vec<String>)
    ensures
        texts(final(list)@) == all_added(texts(old(list)@), texts(more@)),
{
    let mut i: usize = 0;
    while i < more.len()
        invariant
            i <= more@.len(),
            texts(list@) == all_added(texts(old(list)@), texts(more@).take(i as int)),
        decreases more.len() - i,
    {
        add_unique(list, more[i].clone());
        assert(texts(more@).take(i + 1).drop_last() =~= texts(more@).take(i as int));
        assert(texts(more@).take(i + 1).last() == more@[i as int]@);
        i += 1;
    }
    assert(texts(more@).take(i as int) =~= texts(more@));
}

/// A list of strings without repetition, with an index of what it holds.
pub struct UniqueTexts {
    items: Vec<String>,
    index: vstd::hash_map::StringHashMap<bool>,
}

impl View for UniqueTexts {
    type V = Seq<Seq<char>>;

    closed spec fn view(&self) -> Seq<Seq<char>> {
        texts(self.items@)
    }
}

impl UniqueTexts {
    /// The index holds exactly the items, and no item occurs twice.
    pub closed spec fn wf(&self) -> bool {
        &&& self@.no_duplicates()
        &&& forall|t: Seq<char>| #[trigger] self.index@.contains_key(t) <==> self@.contains(t)
    }

    /// The empty list.
    pub fn new() -> (r: Self)
        ensures
            r.wf(),
            r@ == Seq::<Seq<char>>::empty(),
    {
        let r = UniqueTexts { items: Vec::new(), index: vstd::hash_map::StringHashMap::new() };
        assert(r@ =~= Seq::<Seq<char>>::empty());
        r
    }

    /// Adds a string unless the list already holds it.
    pub fn add(&mut self, s: String)
        requires
            old(self).wf(),
        ensures
            final(self).wf(),
            final(self)@ == added(old(self)@, s@),
    {
        proof {
            lemma_added(self@, s@);
        }
        if !self.index.contains_key(s.as_str()) {
            let key = s.clone();
            self.items.push(s);
            self.index.insert(key, true);
            assert(self@ =~= old(self)@.push(s@));
        }
    }

    /// Adds each string of a list in turn.
    pub fn add_all(&mut self, xs: &Vec<String>)
        requires
            old(self).wf(),
        ensures
            final(self).wf(),
            final(self)@ == all_added(old(self)@, texts(xs@)),
    {
        let mut i: usize = 0;
        while i < xs.len()
            invariant
                i <= xs@.len(),
                self.wf(),
                self@ == all_added(old(self)@, texts(xs@).take(i as int)),
            decreases xs.len() - i,
        {
            self.add(xs[i].clone());
            assert(texts(xs@).take(i + 1).drop_last() =~= texts(xs@).take(i as int));
            i += 1;
        }
        assert(texts(xs@).take(i as int) =~= texts(xs@));
    }

    /// The list of strings.
    pub fn into_vec(self) -> (r: Vec<String>)
        requires
            self.wf(),
        ensures
            texts(r@) == self@,
            self@.no_duplicates(),
    {
        self.items
    }
}

// ---------------------------------------------------------------------------
// Counting

/// The number of items of which something holds.
pub open spec fn tally<A>(v: Seq<A>, p: spec_fn(A) -> bool) -> nat
    decreases v.len(),
{
    if v.len() == 0 {
        0
    } else {
        tally(v.drop_last(), p) + (if p(v.last()) {
            1nat
        } else {
            0nat
        })
    }
}

/// No more items are counted than there are.
pub proof fn lemma_tally_bound<A>(v: Seq<A>, p: spec_fn(A) -> bool)
    ensures
        tally(v, p) <= v.len(),
    decreases v.len(),
{
    if v.len() > 0 {
        lemma_tally_bound(v.drop_last(), p);
    }
}

/// The first item counts as any other.
pub proof fn lemma_tally_first<A>(v: Seq<A>, p: spec_fn(A) -> bool)
    requires
        v.len() > 0,
    ensures
        tally(v, p) == tally(v.skip(1), p) + (if p(v[0]) {
            1nat
        } else {
            0nat
        }),
    decreases v.len(),
{
    if v.len() > 1 {
        lemma_tally_first(v.drop_last(), p);
        assert(v.drop_last().skip(1) =~= v.skip(1).drop_last());
        assert(v.skip(1).last() == v.last());
    } else {
        assert(v.skip(1) =~= v.drop_last());
        assert(tally(v.drop_last(), p) == 0);
    }
}

/// Where something holds of no item, none is counted.
pub proof fn lemma_tally_none<A>(v: Seq<A>, p: spec_fn(A) -> bool)
    requires
        forall|i: int| 0 <= i < v.len() ==> !p(#[trigger] v[i]),
    ensures
        tally(v, p) == 0,
    decreases v.len(),
{
    if v.len() > 0 {
        let w = v.drop_last();
        assert forall|i: int| 0 <= i < w.len() implies !p(#[trigger] w[i]) by {
            assert(w[i] == v[i]);
        }
        lemma_tally_none(w, p);
    }
}

/// An item is counted exactly if there is one of which something holds, and all are
/// counted exactly if it holds of all.
pub proof fn lemma_tally_some<A>(v: Seq<A>, p: spec_fn(A) -> bool)
    ensures
        tally(v, p) > 0 <==> exists|x: A| v.contains(x) && p(x),
        tally(v, p) == v.len() <==> forall|x: A| v.contains(x) ==> p(x),
    decreases v.len(),
{
    if v.len() > 0 {
        let w = v.drop_last();
        let y = v[v.len() - 1];
        lemma_tally_some(w, p);
        lemma_tally_bound(w, p);
        assert(v =~= w.push(y));
        assert forall|x: A| v.contains(x) <==> w.contains(x) || y == x by {
            lemma_push_contains(w, y, x);
        }
        assert(v.contains(y));
        if exists|x: A| w.contains(x) && p(x) {
            let x = choose|x: A| w.contains(x) && p(x);
            assert(v.contains(x) && p(x));
        }
        if tally(v, p) == v.len() {
            assert(forall|x: A| w.contains(x) ==> p(x));
        }
    }
}

/// Whether two lists have an item in common.
pub open spec fn common<A>(v: Seq<A>, w: Seq<A>) -> bool {
    exists|x: A| v.contains(x) && w.contains(x)
}

/// Whether every item of a list is in another.
pub open spec fn inside<A>(v: Seq<A>, w: Seq<A>) -> bool {
    forall|x: A| v.contains(x) ==> w.contains(x)
}

// ---------------------------------------------------------------------------
// Grouping

/// Places in a list, grouped by a text.
pub struct Groups {
    bucket_of: vstd::hash_map::StringHashMap<usize>,
    buckets: Vec<Vec<usize>>,
}

/// Machine indices as integers.
pub open spec fn places(v: Seq<usize>) -> Seq<int> {
    v.map_values(|i: usize| i as int)
}

impl Groups {
    /// Every text has its own bucket, which is not empty.
    pub closed spec fn wf(&self) -> bool {
        &&& forall|d: Seq<char>| #[trigger]
            self.bucket_of@.contains_key(d) ==> self.bucket_of@[d] < self.buckets@.len()
                && self.buckets@[self.bucket_of@[d] as int]@.len() > 0
        &&& forall|d: Seq<char>, e: Seq<char>|
            #![trigger self.bucket_of@.contains_key(d), self.bucket_of@.contains_key(e)]
            self.bucket_of@.contains_key(d) && self.bucket_of@.contains_key(e)
                && self.bucket_of@[d] == self.bucket_of@[e] ==> d == e
    }

    /// The places under a text, in the order in which they were added.
    pub closed spec fn at(&self, key: Seq<char>) -> Seq<int> {
        if self.bucket_of@.contains_key(key) {
            places(self.buckets@[self.bucket_of@[key] as int]@)
        } else {
            Seq::empty()
        }
    }

    /// No places.
    pub fn new() -> (r: Self)
        ensures
            r.wf(),
            forall|k: Seq<char>| #[trigger] r.at(k) == Seq::<int>::empty(),
    {
        Groups { bucket_of: vstd::hash_map::StringHashMap::new(), buckets: Vec::new() }
    }

    /// Adds a place under a text.
    pub fn add(&mut self, key: &str, i: usize)
        requires
            old(self).wf(),
        ensures
            final(self).wf(),
            final(self).at(key@) == old(self).at(key@).push(i as int),
            forall|k: Seq<char>| k != key@ ==> #[trigger] final(self).at(k) == old(self).at(k),
    {
        let found: Option<usize> = match self.bucket_of.get(key) {
            Some(b) => Some(*b),
            None => None,
        };
        match found {
            Some(b) => {
                let ghost bucket = self.buckets@[b as int]@;
                self.buckets[b].push(i);
                assert(places(self.buckets@[b as int]@) =~= places(bucket).push(i as int));
            },
            None => {
                let b: usize = self.buckets.len();
                let mut first: Vec<usize> = Vec::new();
                first.push(i);
                assert(places(first@) =~= Seq::<int>::empty().push(i as int));
                self.buckets.push(first);
                self.bucket_of.insert(key.to_string(), b);
            },
        }
        assert forall|k: Seq<char>| k != key@ implies #[trigger] self.at(k) == old(self).at(k) by {
            assert(self.bucket_of@.contains_key(k) == old(self).bucket_of@.contains_key(k));
            if old(self).bucket_of@.contains_key(k) && old(self).bucket_of@.contains_key(key@) {
                assert(old(self).bucket_of@[k] != old(self).bucket_of@[key@]);
            }
        }
        assert forall|d: Seq<char>, e: Seq<char>|
            #![trigger self.bucket_of@.contains_key(d), self.bucket_of@.contains_key(e)]
            self.bucket_of@.contains_key(d) && self.bucket_of@.contains_key(e)
                && self.bucket_of@[d] == self.bucket_of@[e] implies d == e by {
            assert(d != key@ ==> old(self).bucket_of@.contains_key(d));
            assert(e != key@ ==> old(self).bucket_of@.contains_key(e));
        }
        assert forall|d: Seq<char>| #[trigger]
            self.bucket_of@.contains_key(d) implies self.bucket_of@[d] < self.buckets@.len()
            && self.buckets@[self.bucket_of@[d] as int]@.len() > 0 by {
            assert(d != key@ ==> old(self).bucket_of@.contains_key(d));
        }
    }

    /// The places under a text, if there are any.
    pub fn get(&self, key: &str) -> (r: Option<&Vec<usize>>)
        requires
            self.wf(),
        ensures
            match r {
                Some(v) => places(v@) == self.at(key@) && v@.len() > 0,
                None => self.at(key@).len() == 0,
            },
    {
        match self.bucket_of.get(key) {
            Some(b) => Some(&self.buckets[*b]),
            None => None,
        }
    }
}

// ---------------------------------------------------------------------------
// Tables

/// Values by name, with the names in the order in which they came.
#[verifier::reject_recursive_types(V)]
pub struct TextMap<V> {
    names: Vec<String>,
    map: vstd::hash_map::StringHashMap<V>,
}

impl<V> View for TextMap<V> {
    type V = Map<Seq<char>, V>;

    closed spec fn view(&self) -> Map<Seq<char>, V> {
        self.map@
    }
}

impl<V> TextMap<V> {
    /// The names, in the order in which they came.
    pub closed spec fn order(&self) -> Seq<Seq<char>> {
        texts(self.names@)
    }

    /// The names are those of the table, each once.
    pub closed spec fn wf(&self) -> bool {
        &&& self.order().no_duplicates()
        &&& forall|k: Seq<char>| #[trigger] self.map@.contains_key(k) <==> self.order().contains(k)
    }

    /// What holds of the names of a table.
    pub proof fn lemma_order(&self)
        requires
            self.wf(),
        ensures
            self.order().no_duplicates(),
            forall|k: Seq<char>| #[trigger] self@.contains_key(k) <==> self.order().contains(k),
    {
    }

    /// The empty table.
    pub fn new() -> (r: Self)
        ensures
            r.wf(),
            r@ == Map::<Seq<char>, V>::empty(),
            r.order() == Seq::<Seq<char>>::empty(),
    {
        let r = TextMap { names: Vec::new(), map: vstd::hash_map::StringHashMap::new() };
        assert(r.order() =~= Seq::<Seq<char>>::empty());
        r
    }

    /// Sets the value of a name.
    pub fn insert(&mut self, name: String, value: V)
        requires
            old(self).wf(),
        ensures
            final(self).wf(),
            final(self)@ == old(self)@.insert(name@, value),
            final(self).order() == added(old(self).order(), name@),
    {
        proof {
            lemma_added(self.order(), name@);
        }
        if !self.map.contains_key(name.as_str()) {
            self.names.push(name.clone());
            assert(self.order() =~= old(self).order().push(name@));
        }
        self.map.insert(name, value);
    }

    /// The value of a name.
    pub fn get(&self, name: &str) -> (r: Option<&V>)
        ensures
            match r {
                Some(v) => self@.contains_key(name@) && *v == self@[name@],
                None => !self@.contains_key(name@),
            },
    {
        self.map.get(name)
    }

    /// The number of names.
    pub fn len(&self) -> (r: usize)
        ensures
            r == self.order().len(),
    {
        self.names.len()
    }

    /// The name at a place.
    pub fn name(&self, i: usize) -> (r: &String)
        requires
            i < self.order().len(),
        ensures
            r@ == self.order()[i as int],
    {
        &self.names[i]
    }
}

// ---------------------------------------------------------------------------
// Alphabetical order

/// Whether `a` comes no later than `b`, comparing characters from index `i` on.
pub open spec fn le_from(a: Seq<char>, b: Seq<char>, i: int) -> bool
    decreases a.len() - i,
{
    if i >= a.len() {
        true
    } else if i >= b.len() {
        false
    } else if a[i] != b[i] {
        a[i] < b[i]
    } else {
        le_from(a, b, i + 1)
    }
}

/// Whether `a` comes no later than `b` in the order of character codes.
pub open spec fn text_le(a: Seq<char>, b: Seq<char>) -> bool {
    le_from(a, b, 0)
}

/// The order of texts, as a relation.
pub open spec fn text_order() -> spec_fn(Seq<char>, Seq<char>) -> bool {
    |a: Seq<char>, b: Seq<char>| text_le(a, b)
}

/// Whether a list is in alphabetical order and holds nothing twice.
pub open spec fn is_sorted_set(v: Seq<Seq<char>>) -> bool {
    v.no_duplicates() && sorted_by(v, text_order())
}

/// The texts in alphabetical order, repetitions kept.
pub open spec fn sorted_texts(s: Seq<Seq<char>>) -> Seq<Seq<char>> {
    s.sort_by(text_order())
}

proof fn lemma_le_reflexive(a: Seq<char>, i: int)
    requires
        0 <= i,
    ensures
        le_from(a, a, i),
    decreases a.len() - i,
{
    if i < a.len() {
        lemma_le_reflexive(a, i + 1);
    }
}

proof fn lemma_le_total(a: Seq<char>, b: Seq<char>, i: int)
    requires
        0 <= i,
    ensures
        le_from(a, b, i) || le_from(b, a, i),
    decreases a.len() - i,
{
    if i < a.len() && i < b.len() && a[i] == b[i] {
        lemma_le_total(a, b, i + 1);
    }
}

proof fn lemma_le_antisymmetric(a: Seq<char>, b: Seq<char>, i: int)
    requires
        0 <= i <= a.len(),
        i <= b.len(),
        forall|j: int| 0 <= j < i ==> a[j] == b[j],
        le_from(a, b, i),
        le_from(b, a, i),
    ensures
        a == b,
    decreases a.len() - i,
{
    if i < a.len() && i < b.len() {
        lemma_le_antisymmetric(a, b, i + 1);
    } else {
        assert(a =~= b);
    }
}

proof fn lemma_le_transitive(a: Seq<char>, b: Seq<char>, c: Seq<char>, i: int)
    requires
        0 <= i,
        le_from(a, b, i),
        le_from(b, c, i),
    ensures
        le_from(a, c, i),
    decreases a.len() - i,
{
    if i < a.len() && i < b.len() && i < c.len() && a[i] == b[i] && b[i] == c[i] {
        lemma_le_transitive(a, b, c, i + 1);
    }
}

/// The order of texts is total.
pub proof fn lemma_text_order()
    ensures
        total_ordering(text_order()),
{
    let r = text_order();
    assert forall|x: Seq<char>| #[trigger] r(x, x) by {
        lemma_le_reflexive(x, 0);
    }
    assert forall|x: Seq<char>, y: Seq<char>| #[trigger] r(x, y) && #[trigger] r(y, x) implies x
        == y by {
        lemma_le_antisymmetric(x, y, 0);
    }
    assert forall|x: Seq<char>, y: Seq<char>, z: Seq<char>| #[trigger]
        r(x, y) && #[trigger] r(y, z) implies r(x, z) by {
        lemma_le_transitive(x, y, z, 0);
    }
    assert forall|x: Seq<char>, y: Seq<char>| #[trigger] r(x, y) || #[trigger] r(y, x) by {
        lemma_le_total(x, y, 0);
    }
}

/// Sorting keeps the items and the length, and leaves a sorted list alone.
pub proof fn lemma_sorted_texts(s: Seq<Seq<char>>)
    ensures
        sorted_by(sorted_texts(s), text_order()),
        sorted_texts(s).len() == s.len(),
        sorted_texts(sorted_texts(s)) == sorted_texts(s),
        sorted_texts(s).to_multiset() == s.to_multiset(),
        s.no_duplicates() ==> sorted_texts(s).no_duplicates(),
        forall|x: Seq<char>| #[trigger] sorted_texts(s).contains(x) <==> s.contains(x),
{
    broadcast use vstd::seq_lib::group_to_multiset_ensures;

    lemma_text_order();
    s.lemma_sort_by_ensures(text_order());
    let t = sorted_texts(s);
    t.lemma_sort_by_ensures(text_order());
    vstd::seq_lib::lemma_sorted_unique(t, sorted_texts(t), text_order());
    assert forall|x: Seq<char>| #[trigger] t.contains(x) <==> s.contains(x) by {
        assert(t.contains(x) <==> t.to_multiset().contains(x));
        assert(s.contains(x) <==> s.to_multiset().contains(x));
    }
    assert(t.len() == t.to_multiset().len());
    assert(s.len() == s.to_multiset().len());
    if s.no_duplicates() {
        s.lemma_multiset_has_no_duplicates();
        t.lemma_multiset_has_no_duplicates_conv();
    }
}

/// Adding what a list already holds changes nothing.
pub proof fn lemma_nothing_added<A>(out: Seq<A>, xs: Seq<A>)
    requires
        forall|i: int| 0 <= i < xs.len() ==> out.contains(#[trigger] xs[i]),
    ensures
        all_added(out, xs) == out,
    decreases xs.len(),
{
    if xs.len() > 0 {
        assert forall|i: int| 0 <= i < xs.drop_last().len() implies out.contains(
            #[trigger] xs.drop_last()[i],
        ) by {
            assert(xs.drop_last()[i] == xs[i]);
        }
        lemma_nothing_added(out, xs.drop_last());
        assert(out.contains(xs[xs.len() - 1]));
    }
}

fn comes_no_later(a: &str, b: &str) -> (r: bool)
    ensures
        r == text_le(a@, b@),
{
    let a = chars_of(a);
    let b = chars_of(b);
    let ghost (ga, gb) = (a@, b@);
    let mut i: usize = 0;
    while i < a.len() && i < b.len() && a[i] == b[i]
        invariant
            i <= a.len(),
            i <= b.len(),
            ga == a@,
            gb == b@,
            le_from(ga, gb, 0) == le_from(ga, gb, i as int),
        decreases a.len() - i,
    {
        i += 1;
    }
    if i >= a.len() {
        true
    } else if i >= b.len() {
        false
    } else {
        a[i] < b[i]
    }
}

/// Sorts strings alphabetically.
pub fn sort_texts(list: &Vec<String>) -> (r: Vec<String>)
    ensures
        texts(r@) == sorted_texts(texts(list@)),
        texts(r@).to_multiset() == texts(list@).to_multiset(),
        sorted_by(texts(r@), text_order()),
{
    let r = sort_range(list, 0, list.len());
    proof {
        assert(texts(list@).subrange(0, list@.len() as int) =~= texts(list@));
        lemma_text_order();
        texts(list@).lemma_sort_by_ensures(text_order());
        vstd::seq_lib::lemma_sorted_unique(texts(r@), sorted_texts(texts(list@)), text_order());
    }
    r
}

fn sort_range(list: &Vec<String>, lo: usize, hi: usize) -> (r: Vec<String>)
    requires
        lo <= hi <= list@.len(),
    ensures
        texts(r@).to_multiset() == texts(list@).subrange(lo as int, hi as int).to_multiset(),
        sorted_by(texts(r@), text_order()),
    decreases hi - lo,
{
    if hi - lo < 2 {
        let mut out: Vec<String> = Vec::new();
        if lo < hi {
            out.push(list[lo].clone());
        }
        assert(texts(out@) =~= texts(list@).subrange(lo as int, hi as int));
        return out;
    }
    let mid: usize = lo + (hi - lo) / 2;
    let left = sort_range(list, lo, mid);
    let right = sort_range(list, mid, hi);
    let out = merge(&left, &right);
    proof {
        let l = texts(list@).subrange(lo as int, mid as int);
        let r = texts(list@).subrange(mid as int, hi as int);
        vstd::seq_lib::lemma_multiset_commutative(l, r);
        assert(l + r =~= texts(list@).subrange(lo as int, hi as int));
    }
    out
}

fn merge(a: &Vec<String>, b: &Vec<String>) -> (r: Vec<String>)
    requires
        sorted_by(texts(a@), text_order()),
        sorted_by(texts(b@), text_order()),
    ensures
        texts(r@).to_multiset() == texts(a@).to_multiset().add(texts(b@).to_multiset()),
        sorted_by(texts(r@), text_order()),
{
    let ghost le = text_order();
    let ghost ta = texts(a@);
    let ghost tb = texts(b@);
    let mut out: Vec<String> = Vec::new();
    let mut i: usize = 0;
    let mut j: usize = 0;
    proof {
        lemma_text_order();
        broadcast use vstd::seq_lib::group_to_multiset_ensures;

        assert(ta.take(0) =~= Seq::<Seq<char>>::empty());
        assert(tb.take(0) =~= Seq::<Seq<char>>::empty());
        assert(texts(out@) =~= Seq::<Seq<char>>::empty());
        assert(texts(out@).to_multiset() =~= ta.take(0).to_multiset().add(
            tb.take(0).to_multiset(),
        ));
    }
    while i < a.len() || j < b.len()
        invariant
            le == text_order(),
            total_ordering(le),
            ta == texts(a@),
            tb == texts(b@),
            i <= a@.len(),
            j <= b@.len(),
            sorted_by(ta, le),
            sorted_by(tb, le),
            sorted_by(texts(out@), le),
            forall|n: int, m: int|
                0 <= n < out@.len() && i <= m < ta.len() ==> le(
                    #[trigger] texts(out@)[n],
                    #[trigger] ta[m],
                ),
            forall|n: int, m: int|
                0 <= n < out@.len() && j <= m < tb.len() ==> le(
                    #[trigger] texts(out@)[n],
                    #[trigger] tb[m],
                ),
            texts(out@).to_multiset() == ta.take(i as int).to_multiset().add(
                tb.take(j as int).to_multiset(),
            ),
        decreases a.len() - i + b.len() - j,
    {
        let ghost before = texts(out@);
        let from_a = if i >= a.len() {
            false
        } else if j >= b.len() {
            true
        } else {
            comes_no_later(a[i].as_str(), b[j].as_str())
        };
        proof {
            broadcast use vstd::seq_lib::group_to_multiset_ensures;

            if from_a {
                assert(ta.take(i + 1) =~= ta.take(i as int).push(ta[i as int]));
                assert(ta[i as int] == a@[i as int]@);
                assert forall|m: int| j <= m < tb.len() implies le(
                    ta[i as int],
                    #[trigger] tb[m],
                ) by {
                    assert(le(ta[i as int], tb[j as int]));
                    if j < m {
                        assert(le(tb[j as int], tb[m]));
                    }
                }
            } else {
                assert(tb.take(j + 1) =~= tb.take(j as int).push(tb[j as int]));
                assert(tb[j as int] == b@[j as int]@);
                assert forall|m: int| i <= m < ta.len() implies le(
                    tb[j as int],
                    #[trigger] ta[m],
                ) by {
                    assert(le(ta[i as int], tb[j as int]) || le(tb[j as int], ta[i as int]));
                    if i < m {
                        assert(le(ta[i as int], ta[m]));
                    }
                }
            }
        }
        if from_a {
            out.push(a[i].clone());
            i += 1;
            proof {
                broadcast use vstd::seq_lib::group_to_multiset_ensures;

                assert(texts(out@) =~= before.push(ta[i - 1]));
                assert(texts(out@).to_multiset() =~= ta.take(i as int).to_multiset().add(
                    tb.take(j as int).to_multiset(),
                ));
            }
        } else {
            out.push(b[j].clone());
            j += 1;
            proof {
                broadcast use vstd::seq_lib::group_to_multiset_ensures;

                assert(texts(out@) =~= before.push(tb[j - 1]));
                assert(texts(out@).to_multiset() =~= ta.take(i as int).to_multiset().add(
                    tb.take(j as int).to_multiset(),
                ));
            }
        }
    }
    assert(ta.take(i as int) =~= ta);
    assert(tb.take(j as int) =~= tb);
    out
}

/// Texts are ordered as in a dictionary: by the first character in which they differ, and a
/// text comes before what begins with it.
pub proof fn law_texts_are_ordered_by_their_first_difference(
    p: Seq<char>,
    c: char,
    d: char,
    x: Seq<char>,
    y: Seq<char>,
)
    requires
        c < d,
    ensures
        text_le(p + seq![c] + x, p + seq![d] + y),
        !text_le(p + seq![d] + y, p + seq![c] + x),
        text_le(p, p + seq![c] + x),
        !text_le(p + seq![c] + x, p),
{
    lemma_order_behind(p, seq![c] + x, seq![d] + y, 0);
    lemma_order_behind(p, seq![d] + y, seq![c] + x, 0);
    lemma_order_behind(p, Seq::empty(), seq![c] + x, 0);
    lemma_order_behind(p, seq![c] + x, Seq::empty(), 0);
    assert(p + (seq![c] + x) =~= p + seq![c] + x);
    assert(p + (seq![d] + y) =~= p + seq![d] + y);
    assert(p + Seq::<char>::empty() =~= p);
}

proof fn lemma_order_behind(p: Seq<char>, a: Seq<char>, b: Seq<char>, i: int)
    requires
        0 <= i <= p.len(),
        a.len() > 0 && b.len() > 0 ==> a[0] != b[0],
        a.len() > 0 || b.len() > 0,
    ensures
        le_from(p + a, p + b, i) <==> a.len() == 0 || (b.len() > 0 && a[0] < b[0]),
    decreases p.len() - i,
{
    let (s, t) = (p + a, p + b);
    if i < p.len() {
        assert(s[i] == p[i] && t[i] == p[i]);
        lemma_order_behind(p, a, b, i + 1);
    } else {
        if a.len() > 0 {
            assert(s[i] == a[0]);
        }
        if b.len() > 0 {
            assert(t[i] == b[0]);
        }
    }
}

} // verus!

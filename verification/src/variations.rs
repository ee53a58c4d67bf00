//! Sets of variation tags.
//!
//! A variation is an opaque tag that refines a key. A set of variations is
//! kept as a strictly ascending vector, so that every set has exactly one
//! representation and two sets can be ordered by comparing their listings.

use std::collections::BTreeSet;
use vstd::prelude::*;

verus! {

/// A variation: an opaque tag that refines a key.
pub type Variant = u64;

/// Whether `s` lists its items in strictly ascending order.
pub open spec fn ascending(s: Seq<Variant>) -> bool {
    forall|i: int, j: int| 0 <= i < j < s.len() ==> s[i] < s[j]
}

/// The ascending listing of the finite set `s`.
pub open spec fn listing(s: Set<Variant>) -> Seq<Variant> {
    choose|q: Seq<Variant>| ascending(q) && q.to_set() == s
}

/// The lexicographic order of two sequences: negative where `a` comes first,
/// zero where they are equal, positive where `b` comes first. A proper prefix
/// comes before the sequence it is a prefix of.
pub open spec fn seq_order(a: Seq<Variant>, b: Seq<Variant>) -> int
    decreases a.len(),
{
    if a.len() == 0 {
        if b.len() == 0 {
            0
        } else {
            -1
        }
    } else if b.len() == 0 {
        1
    } else if a[0] < b[0] {
        -1
    } else if a[0] > b[0] {
        1
    } else {
        seq_order(a.skip(1), b.skip(1))
    }
}

/// The order of two finite sets: the lexicographic order of their ascending
/// listings.
pub open spec fn set_order(a: Set<Variant>, b: Set<Variant>) -> int {
    seq_order(listing(a), listing(b))
}

/// Two ascending sequences with the same items are the same sequence.
pub proof fn lemma_ascending_unique(a: Seq<Variant>, b: Seq<Variant>)
    requires
        ascending(a),
        ascending(b),
        a.to_set() == b.to_set(),
    ensures
        a == b,
    decreases a.len(),
{
    if a.len() == 0 {
        if b.len() > 0 {
            assert(b.contains(b[0]));
            assert(b.to_set().contains(b[0]));
            assert(a.to_set().contains(b[0]));
        }
        assert(a =~= b);
    } else {
        let x = a.last();
        assert(a.contains(x));
        assert(b.to_set().contains(x));
        assert(b.contains(x));
        let y = b.last();
        assert(b.contains(y));
        assert(a.to_set().contains(y));
        assert(a.contains(y));
        assert(x == y);
        let a0 = a.drop_last();
        let b0 = b.drop_last();
        assert forall|v: u64| a0.to_set().contains(v) <==> b0.to_set().contains(v) by {
            if a0.contains(v) {
                let i = choose|i: int| 0 <= i < a0.len() && a0[i] == v;
                assert(a[i] == v);
                assert(a.contains(v));
                assert(b.to_set().contains(v));
                let j = choose|j: int| 0 <= j < b.len() && b[j] == v;
                assert(v < x);
                assert(b0[j] == v);
            }
            if b0.contains(v) {
                let i = choose|i: int| 0 <= i < b0.len() && b0[i] == v;
                assert(b[i] == v);
                assert(b.contains(v));
                assert(a.to_set().contains(v));
                let j = choose|j: int| 0 <= j < a.len() && a[j] == v;
                assert(v < y);
                assert(a0[j] == v);
            }
        }
        assert(a0.to_set() =~= b0.to_set());
        lemma_ascending_unique(a0, b0);
        assert(a =~= a0.push(x));
        assert(b =~= b0.push(y));
    }
}

/// An ascending sequence is the listing of its own set of items.
pub proof fn lemma_listing_of(a: Seq<Variant>)
    requires
        ascending(a),
    ensures
        listing(a.to_set()) == a,
{
    let s = a.to_set();
    assert(ascending(a) && a.to_set() == s);
    lemma_ascending_unique(listing(s), a);
}

/// Swapping the arguments of `seq_order` negates its result.
pub proof fn lemma_seq_order_flip(a: Seq<Variant>, b: Seq<Variant>)
    ensures
        seq_order(b, a) == -seq_order(a, b),
        -1 <= seq_order(a, b) <= 1,
    decreases a.len(),
{
    if a.len() > 0 && b.len() > 0 && a[0] == b[0] {
        lemma_seq_order_flip(a.skip(1), b.skip(1));
    }
}

/// `seq_order` is transitive, and strictly so where one of the two steps is
/// strict.
pub proof fn lemma_seq_order_trans(a: Seq<Variant>, b: Seq<Variant>, c: Seq<Variant>)
    requires
        seq_order(a, b) <= 0,
        seq_order(b, c) <= 0,
    ensures
        seq_order(a, c) <= 0,
        seq_order(a, b) < 0 || seq_order(b, c) < 0 ==> seq_order(a, c) < 0,
    decreases a.len(),
{
    if a.len() > 0 && b.len() > 0 && c.len() > 0 && a[0] == b[0] && b[0] == c[0] {
        lemma_seq_order_trans(a.skip(1), b.skip(1), c.skip(1));
    }
}

/// A finite set of variation tags.
pub struct Variations {
    items: Vec<Variant>,
}

impl View for Variations {
    type V = Set<Variant>;

    closed spec fn view(&self) -> Set<Variant> {
        self.items@.to_set()
    }
}

impl Clone for Variations {
    fn clone(&self) -> (r: Self)
        ensures
            r@ == self@,
            r.wf() == self.wf(),
    {
        let items = self.items.clone();
        assert(items@ =~= self.items@);
        Variations { items }
    }
}

impl Variations {
    /// The representation invariant: the items are strictly ascending.
    pub closed spec fn wf(&self) -> bool {
        ascending(self.items@)
    }

    /// A well-formed set is finite and is listed by its representation.
    pub proof fn lemma_wf(&self)
        requires
            self.wf(),
        ensures
            self@.finite(),
            self@.len() <= usize::MAX,
            ascending(listing(self@)),
            listing(self@).to_set() == self@,
    {
        lemma_listing_of(self.items@);
        vstd::seq_lib::seq_to_set_is_finite(self.items@);
        self.items@.unique_seq_to_set();
        assert(self.items@.len() == self.items.len());
    }

    /// The empty set.
    pub fn new() -> (r: Self)
        ensures
            r.wf(),
            r@ == Set::<Variant>::empty(),
    {
        let r = Variations { items: Vec::new() };
        assert(r.items@.to_set() =~= Set::<Variant>::empty());
        r
    }

    /// The set of the items of `v`.
    pub fn from_vec(v: Vec<Variant>) -> (r: Self)
        ensures
            r.wf(),
            r@ == v@.to_set(),
    {
        let mut r = Variations::new();
        let mut i: usize = 0;
        while i < v.len()
            invariant
                i <= v.len(),
                r.wf(),
                r@ == v@.take(i as int).to_set(),
            decreases v.len() - i,
        {
            r.insert(v[i]);
            proof {
                assert(v@.take(i + 1) =~= v@.take(i as int).push(v@[i as int]));
                v@.take(i as int).lemma_push_to_set_commute(v@[i as int]);
            }
            i += 1;
        }
        assert(v@.take(v.len() as int) =~= v@);
        r
    }

    /// The set of the items of `set`.
    pub fn from_set(set: &BTreeSet<Variant>) -> (r: Self)
        ensures
            r.wf(),
            r@ == set@,
    {
        let mut r = Variations::new();
        for x in it: set.iter()
            invariant
                r.wf(),
                r@ == it.seq().take(it.index() as int).unref().to_set(),
                it.seq().unref().to_set() == set@,
                it.index() == it.seq().len() ==> r@ == set@,
        {
            proof {
                let all = it.seq();
                let i = it.index() as int;
                assert(all.take(i + 1) =~= all.take(i).push(all[i]));
                assert(all.take(i + 1).unref() =~= all.take(i).unref().push(*all[i]));
                all.take(i).unref().lemma_push_to_set_commute(*all[i]);
                assert(i + 1 == all.len() ==> all.take(i + 1) =~= all);
            }
            r.insert(*x);
        }
        r
    }

    /// The items in ascending order.
    pub fn to_vec(&self) -> (r: Vec<Variant>)
        requires
            self.wf(),
        ensures
            r@ == listing(self@),
    {
        proof {
            lemma_listing_of(self.items@);
        }
        let r = self.items.clone();
        assert(r@ =~= self.items@);
        r
    }

    /// The number of items.
    pub fn len(&self) -> (r: usize)
        requires
            self.wf(),
        ensures
            r == self@.len(),
    {
        proof {
            self.items@.unique_seq_to_set();
        }
        self.items.len()
    }

    /// Whether `x` is in the set.
    pub fn contains(&self, x: Variant) -> (r: bool)
        ensures
            r == self@.contains(x),
    {
        let mut i: usize = 0;
        while i < self.items.len()
            invariant
                i <= self.items.len(),
                forall|k: int| 0 <= k < i ==> self.items@[k] != x,
            decreases self.items.len() - i,
        {
            if self.items[i] == x {
                assert(self.items@.contains(x));
                return true;
            }
            i += 1;
        }
        false
    }

    /// Adds `x` to the set. Returns whether it was new.
    pub fn insert(&mut self, x: Variant) -> (r: bool)
        requires
            old(self).wf(),
        ensures
            final(self).wf(),
            final(self)@ == old(self)@.insert(x),
            r == !old(self)@.contains(x),
    {
        let mut pos: usize = 0;
        while pos < self.items.len() && self.items[pos] < x
            invariant
                pos <= self.items.len(),
                self.items@ == old(self).items@,
                forall|k: int| 0 <= k < pos ==> self.items@[k] < x,
            decreases self.items.len() - pos,
        {
            pos += 1;
        }
        if pos < self.items.len() && self.items[pos] == x {
            assert(self.items@.contains(x));
            assert(self@ =~= old(self)@.insert(x));
            return false;
        }
        let ghost before = self.items@;
        assert forall|k: int| 0 <= k < before.len() implies before[k] != x by {
            if k >= pos {
                assert(before[pos as int] <= before[k]);
            }
        }
        self.items.insert(pos, x);
        proof {
            before.insert_ensures(pos as int, x);
            let after = self.items@;
            assert forall|i: int, j: int| 0 <= i < j < after.len() implies after[i] < after[j] by {
                if i < pos && j > pos {
                    assert(after[j] == before[j - 1]);
                } else if i > pos {
                    assert(after[i] == before[i - 1]);
                    assert(after[j] == before[j - 1]);
                } else if i == pos {
                    assert(after[j] == before[j - 1]);
                }
            }
            assert forall|v: u64| after.to_set().contains(v) <==> before.to_set().insert(
                x,
            ).contains(v) by {
                if after.contains(v) {
                    let i = choose|i: int| 0 <= i < after.len() && after[i] == v;
                    if i < pos {
                        assert(before[i] == v);
                        assert(before.contains(v));
                    } else if i > pos {
                        assert(before[i - 1] == v);
                        assert(before.contains(v));
                    }
                }
                if before.contains(v) {
                    let i = choose|i: int| 0 <= i < before.len() && before[i] == v;
                    if i < pos {
                        assert(after[i] == v);
                    } else {
                        assert(after[i + 1] == v);
                    }
                    assert(after.contains(v));
                }
                if v == x {
                    assert(after[pos as int] == v);
                    assert(after.contains(v));
                }
            }
            assert(after.to_set() =~= before.to_set().insert(x));
        }
        true
    }

    /// Whether every item of `self` is in `other`.
    pub fn is_subset(&self, other: &Variations) -> (r: bool)
        ensures
            r == self@.subset_of(other@),
    {
        let mut i: usize = 0;
        while i < self.items.len()
            invariant
                i <= self.items.len(),
                forall|k: int| 0 <= k < i ==> other@.contains(self.items@[k]),
            decreases self.items.len() - i,
        {
            if !other.contains(self.items[i]) {
                assert(self.items@.contains(self.items@[i as int]));
                return false;
            }
            i += 1;
        }
        true
    }

    /// Whether every item of `other` is in `self`.
    pub fn is_superset(&self, other: &Variations) -> (r: bool)
        ensures
            r == other@.subset_of(self@),
    {
        other.is_subset(self)
    }

    /// Whether the two sets hold the same items.
    pub fn equals(&self, other: &Variations) -> (r: bool)
        requires
            self.wf(),
            other.wf(),
        ensures
            r == (self@ == other@),
    {
        proof {
            if self@ == other@ {
                lemma_ascending_unique(self.items@, other.items@);
            }
        }
        if self.items.len() != other.items.len() {
            return false;
        }
        let mut i: usize = 0;
        while i < self.items.len()
            invariant
                i <= self.items.len(),
                self.items.len() == other.items.len(),
                self@ == other@ ==> self.items@ == other.items@,
                forall|k: int| 0 <= k < i ==> self.items@[k] == other.items@[k],
            decreases self.items.len() - i,
        {
            if self.items[i] != other.items[i] {
                return false;
            }
            i += 1;
        }
        assert(self.items@ =~= other.items@);
        true
    }

    /// The items of `self` that are not in `other`.
    pub fn difference(&self, other: &Variations) -> (r: Variations)
        requires
            self.wf(),
        ensures
            r.wf(),
            r@ == self@.difference(other@),
    {
        let mut out: Vec<u64> = Vec::new();
        let mut i: usize = 0;
        assert(self.items@.take(0).to_set() =~= Set::<Variant>::empty());
        assert(out@.to_set() =~= Set::<Variant>::empty());
        while i < self.items.len()
            invariant
                i <= self.items.len(),
                self.wf(),
                ascending(out@),
                forall|k: int, j: int|
                    0 <= k < out.len() && i <= j < self.items.len() ==> out@[k] < self.items@[j],
                out@.to_set() =~= self.items@.take(i as int).to_set().difference(other@),
            decreases self.items.len() - i,
        {
            let x = self.items[i];
            proof {
                assert(self.items@.take(i + 1) =~= self.items@.take(i as int).push(x));
                self.items@.take(i as int).lemma_push_to_set_commute(x);
            }
            if !other.contains(x) {
                proof {
                    out@.lemma_push_to_set_commute(x);
                }
                out.push(x);
            }
            i += 1;
        }
        assert(self.items@.take(self.items.len() as int) =~= self.items@);
        Variations { items: out }
    }

    /// The items that are in `self` or in `other`.
    pub fn union(&self, other: &Variations) -> (r: Variations)
        requires
            self.wf(),
        ensures
            r.wf(),
            r@ == self@.union(other@),
    {
        let mut out = self.clone();
        let mut i: usize = 0;
        assert(other.items@.take(0).to_set() =~= Set::<Variant>::empty());
        assert(out@ =~= self@.union(Set::<Variant>::empty()));
        while i < other.items.len()
            invariant
                i <= other.items.len(),
                out.wf(),
                out@ =~= self@.union(other.items@.take(i as int).to_set()),
            decreases other.items.len() - i,
        {
            let x = other.items[i];
            proof {
                assert(other.items@.take(i + 1) =~= other.items@.take(i as int).push(x));
                other.items@.take(i as int).lemma_push_to_set_commute(x);
            }
            out.insert(x);
            i += 1;
        }
        assert(other.items@.take(other.items.len() as int) =~= other.items@);
        out
    }

    /// The number of items that are in both sets.
    pub fn intersection_count(&self, other: &Variations) -> (r: usize)
        requires
            self.wf(),
        ensures
            r == self@.intersect(other@).len(),
    {
        let mut count: usize = 0;
        let mut i: usize = 0;
        assert(self.items@.take(0).to_set() =~= Set::<Variant>::empty());
        assert(Set::<Variant>::empty().intersect(other@) =~= Set::<Variant>::empty());
        while i < self.items.len()
            invariant
                i <= self.items.len(),
                self.wf(),
                count <= i,
                count == self.items@.take(i as int).to_set().intersect(other@).len(),
            decreases self.items.len() - i,
        {
            let x = self.items[i];
            proof {
                let before = self.items@.take(i as int);
                assert(self.items@.take(i + 1) =~= before.push(x));
                before.lemma_push_to_set_commute(x);
                vstd::seq_lib::seq_to_set_is_finite(before);
                assert(!before.to_set().contains(x)) by {
                    if before.contains(x) {
                        let k = choose|k: int| 0 <= k < before.len() && before[k] == x;
                        assert(self.items@[k] < self.items@[i as int]);
                    }
                }
                vstd::set_lib::lemma_len_intersect(before.to_set(), other@);
                if other@.contains(x) {
                    assert(before.to_set().insert(x).intersect(other@) =~= before.to_set().intersect(
                        other@,
                    ).insert(x));
                } else {
                    assert(before.to_set().insert(x).intersect(other@) =~= before.to_set().intersect(
                        other@,
                    ));
                }
            }
            if other.contains(x) {
                count += 1;
            }
            i += 1;
        }
        assert(self.items@.take(self.items.len() as int) =~= self.items@);
        count
    }

    /// Orders two sets by their ascending listings: -1 where `self` comes
    /// first, 0 where the sets are equal, 1 where `other` comes first.
    pub fn order(&self, other: &Variations) -> (r: i8)
        requires
            self.wf(),
            other.wf(),
        ensures
            r == set_order(self@, other@),
    {
        proof {
            lemma_listing_of(self.items@);
            lemma_listing_of(other.items@);
        }
        let mut i: usize = 0;
        assert(self.items@.skip(0) =~= self.items@);
        assert(other.items@.skip(0) =~= other.items@);
        while i < self.items.len() && i < other.items.len()
            invariant
                i <= self.items.len(),
                i <= other.items.len(),
                listing(self@) == self.items@,
                listing(other@) == other.items@,
                seq_order(self.items@, other.items@) == seq_order(
                    self.items@.skip(i as int),
                    other.items@.skip(i as int),
                ),
            decreases self.items.len() - i,
        {
            let x = self.items[i];
            let y = other.items[i];
            assert(self.items@.skip(i as int)[0] == x);
            assert(other.items@.skip(i as int)[0] == y);
            if x < y {
                return -1;
            }
            if x > y {
                return 1;
            }
            assert(self.items@.skip(i as int).skip(1) =~= self.items@.skip(i + 1));
            assert(other.items@.skip(i as int).skip(1) =~= other.items@.skip(i + 1));
            i += 1;
        }
        if i < other.items.len() {
            -1
        } else if i < self.items.len() {
            1
        } else {
            0
        }
    }
}

} // verus!

//! Supporting containers: a sorted-vector map with binary-search retrieval,
//! usable either as a one-value-per-key map or as an ordered multimap, and an
//! interleaving merge over two cursor-tagged sequences.

use vstd::prelude::*;

verus! {

/// A total order on keys, with an executable comparison tied to the
/// specification-level relation and the laws a total order must obey.
pub trait TotalOrdered: Sized {
    /// The order itself, at the specification level.
    spec fn le_spec(self, other: Self) -> bool;

    proof fn lemma_le_total(a: Self, b: Self)
        ensures
            a.le_spec(b) || b.le_spec(a),
    ;

    proof fn lemma_le_antisymmetric(a: Self, b: Self)
        ensures
            a.le_spec(b) && b.le_spec(a) ==> a == b,
    ;

    proof fn lemma_le_transitive(a: Self, b: Self, c: Self)
        ensures
            a.le_spec(b) && b.le_spec(c) ==> a.le_spec(c),
    ;

    /// Executable comparison.
    fn le(&self, other: &Self) -> (r: bool)
        ensures
            r == self.le_spec(*other),
    ;
}

impl TotalOrdered for u64 {
    open spec fn le_spec(self, other: Self) -> bool {
        self <= other
    }

    proof fn lemma_le_total(a: Self, b: Self) {
    }

    proof fn lemma_le_antisymmetric(a: Self, b: Self) {
    }

    proof fn lemma_le_transitive(a: Self, b: Self, c: Self) {
    }

    fn le(&self, other: &Self) -> (r: bool) {
        *self <= *other
    }
}

impl TotalOrdered for usize {
    open spec fn le_spec(self, other: Self) -> bool {
        self <= other
    }

    proof fn lemma_le_total(a: Self, b: Self) {
    }

    proof fn lemma_le_antisymmetric(a: Self, b: Self) {
    }

    proof fn lemma_le_transitive(a: Self, b: Self, c: Self) {
    }

    fn le(&self, other: &Self) -> (r: bool) {
        *self <= *other
    }
}

/// Marker for maps that hold at most one value per key.
pub struct SingleValue;

/// Marker for maps that may hold several values per key.
pub struct ValueSet;

/// A map structure that stores data sorted by key as tuples in a `Vec`,
/// allowing for retrieval using binary search.
///
/// A single key may be associated with multiple values if `Mode` is
/// [`ValueSet`].
pub struct BSMap<K, V, Mode = SingleValue> {
    entries: Vec<(K, V)>,
    mode: core::marker::PhantomData<Mode>,
}

impl<K, V, M> View for BSMap<K, V, M> {
    type V = Seq<(K, V)>;

    closed spec fn view(&self) -> Seq<(K, V)> {
        self.entries@
    }
}

/// Entries are ordered by key, possibly with repeated keys.
pub open spec fn entries_sorted<K: TotalOrdered, V>(s: Seq<(K, V)>) -> bool {
    forall|i: int, j: int| 0 <= i <= j < s.len() ==> #[trigger] s[i].0.le_spec(#[trigger] s[j].0)
}

/// No two entries are identical (keys may still repeat).
pub open spec fn entries_distinct<K, V>(s: Seq<(K, V)>) -> bool {
    forall|i: int, j: int| 0 <= i < j < s.len() ==> #[trigger] s[i] != #[trigger] s[j]
}

/// No key occurs twice.
pub open spec fn keys_distinct<K, V>(s: Seq<(K, V)>) -> bool {
    forall|i: int, j: int| 0 <= i < j < s.len() ==> (#[trigger] s[i]).0 != (#[trigger] s[j]).0
}

impl<K, V, M> BSMap<K, V, M> {
    pub fn new() -> (r: BSMap<K, V, M>)
        ensures
            r@ =~= Seq::<(K, V)>::empty(),
    {
        BSMap { entries: Vec::new(), mode: core::marker::PhantomData }
    }

    pub fn len(&self) -> (r: usize)
        ensures
            r == self@.len(),
    {
        self.entries.len()
    }

    pub fn is_empty(&self) -> (r: bool)
        ensures
            r == (self@.len() == 0),
    {
        self.entries.is_empty()
    }

    pub fn clear(&mut self)
        ensures
            final(self)@ =~= Seq::<(K, V)>::empty(),
    {
        self.entries.clear();
    }

    /// The entries in key order.
    pub fn iter(&self) -> (r: &Vec<(K, V)>)
        ensures
            r@ == self@,
    {
        &self.entries
    }

    /// Mutable access to the entries; the caller is responsible for keeping
    /// them sorted.
    pub fn iter_mut(&mut self) -> (r: &mut Vec<(K, V)>)
        ensures
            r@ == old(self)@,
            final(self)@ == final(r)@,
    {
        &mut self.entries
    }
}

impl<K: TotalOrdered, V, M> BSMap<K, V, M> {
    /// Whether the entries are ordered by key, the well-formedness every
    /// lookup relies on.
    pub open spec fn sorted(self) -> bool {
        entries_sorted(self@)
    }

    /// Index of the first entry whose key is not below `key`.
    fn lower_bound(&self, key: &K) -> (r: usize)
        requires
            self.sorted(),
        ensures
            r <= self@.len(),
            forall|i: int| 0 <= i < r ==> !key.le_spec((#[trigger] self@[i]).0),
            forall|i: int| r <= i < self@.len() ==> key.le_spec((#[trigger] self@[i]).0),
    {
        let mut lo: usize = 0;
        let mut hi: usize = self.entries.len();
        while lo < hi
            invariant
                lo <= hi <= self@.len(),
                self.sorted(),
                forall|i: int| 0 <= i < lo ==> !key.le_spec((#[trigger] self@[i]).0),
                forall|i: int| hi <= i < self@.len() ==> key.le_spec((#[trigger] self@[i]).0),
            decreases hi - lo,
        {
            let mid = lo + (hi - lo) / 2;
            if key.le(&self.entries[mid].0) {
                proof {
                    assert forall|i: int| mid <= i < self@.len() implies key.le_spec(
                        (#[trigger] self@[i]).0,
                    ) by {
                        K::lemma_le_transitive(*key, self@[mid as int].0, self@[i].0);
                    }
                }
                hi = mid;
            } else {
                proof {
                    assert forall|i: int| 0 <= i < mid + 1 implies !key.le_spec(
                        (#[trigger] self@[i]).0,
                    ) by {
                        if key.le_spec(self@[i].0) {
                            K::lemma_le_transitive(*key, self@[i].0, self@[mid as int].0);
                        }
                    }
                }
                lo = mid + 1;
            }
        }
        lo
    }

    /// Index of the first entry whose key is above `key`.
    fn upper_bound(&self, key: &K) -> (r: usize)
        requires
            self.sorted(),
        ensures
            r <= self@.len(),
            forall|i: int| 0 <= i < r ==> (#[trigger] self@[i]).0.le_spec(*key),
            forall|i: int| r <= i < self@.len() ==> !(#[trigger] self@[i]).0.le_spec(*key),
    {
        let mut lo: usize = 0;
        let mut hi: usize = self.entries.len();
        while lo < hi
            invariant
                lo <= hi <= self@.len(),
                self.sorted(),
                forall|i: int| 0 <= i < lo ==> (#[trigger] self@[i]).0.le_spec(*key),
                forall|i: int| hi <= i < self@.len() ==> !(#[trigger] self@[i]).0.le_spec(*key),
            decreases hi - lo,
        {
            let mid = lo + (hi - lo) / 2;
            if self.entries[mid].0.le(key) {
                proof {
                    assert forall|i: int| 0 <= i < mid + 1 implies (#[trigger] self@[i]).0.le_spec(
                        *key,
                    ) by {
                        K::lemma_le_transitive(self@[i].0, self@[mid as int].0, *key);
                    }
                }
                lo = mid + 1;
            } else {
                proof {
                    assert forall|i: int| mid <= i < self@.len() implies !(
                    #[trigger] self@[i]).0.le_spec(*key) by {
                        if self@[i].0.le_spec(*key) {
                            K::lemma_le_transitive(self@[mid as int].0, self@[i].0, *key);
                        }
                    }
                }
                hi = mid;
            }
        }
        lo
    }

    pub fn contains_key(&self, key: &K) -> (r: bool)
        requires
            self.sorted(),
        ensures
            r == exists|i: int| 0 <= i < self@.len() && (#[trigger] self@[i]).0 == *key,
    {
        let lower = self.lower_bound(key);
        if lower < self.entries.len() && self.entries[lower].0.le(key) {
            proof {
                K::lemma_le_antisymmetric(*key, self@[lower as int].0);
            }
            true
        } else {
            proof {
                assert forall|i: int| 0 <= i < self@.len() implies (#[trigger] self@[i]).0
                    != *key by {
                    K::lemma_le_total(*key, *key);
                    if i >= lower && self@[i].0 == *key && lower < self@.len() {
                        K::lemma_le_transitive(self@[lower as int].0, self@[i].0, *key);
                    }
                }
            }
            false
        }
    }

    /// First and one-past-last index of the entries whose keys lie in
    /// `[lo, hi]`.
    pub fn range_bounds(&self, lo: &K, hi: &K) -> (r: (usize, usize))
        requires
            self.sorted(),
            lo.le_spec(*hi),
        ensures
            r.0 <= r.1 <= self@.len(),
            forall|i: int| 0 <= i < r.0 ==> !lo.le_spec((#[trigger] self@[i]).0),
            forall|i: int|
                r.0 <= i < r.1 ==> lo.le_spec((#[trigger] self@[i]).0) && self@[i].0.le_spec(*hi),
            forall|i: int| r.1 <= i < self@.len() ==> !(#[trigger] self@[i]).0.le_spec(*hi),
    {
        let a = self.lower_bound(lo);
        let b = self.upper_bound(hi);
        proof {
            if a > b {
                let i = b as int;
                // the entry at b would be below lo yet above hi, against lo <= hi
                K::lemma_le_total(*lo, self@[i].0);
                K::lemma_le_transitive(self@[i].0, *lo, *hi);
                assert(false);
            }
        }
        (a, b)
    }

    /// Returns the key with the greatest order position.
    pub fn greatest_key(&self) -> (r: Option<&K>)
        ensures
            match r {
                Some(k) => self@.len() > 0 && *k == self@.last().0,
                None => self@.len() == 0,
            },
    {
        if self.entries.len() == 0 {
            None
        } else {
            Some(&self.entries[self.entries.len() - 1].0)
        }
    }
}

impl<K: TotalOrdered + Copy, V: Copy, M> BSMap<K, V, M> {
    /// All entries whose keys lie in `[lo, hi]`, in map order.
    pub fn range_by(&self, lo: &K, hi: &K) -> (r: Vec<(K, V)>)
        requires
            self.sorted(),
            lo.le_spec(*hi),
        ensures
            exists|a: int, b: int|
                {
                    &&& 0 <= a <= b <= self@.len()
                    &&& r@ == self@.subrange(a, b)
                    &&& forall|i: int| 0 <= i < a ==> !lo.le_spec((#[trigger] self@[i]).0)
                    &&& forall|i: int|
                        a <= i < b ==> lo.le_spec((#[trigger] self@[i]).0) && self@[i].0.le_spec(
                            *hi,
                        )
                    &&& forall|i: int| b <= i < self@.len() ==> !(#[trigger] self@[i]).0.le_spec(*hi)
                },
    {
        let (a, b) = self.range_bounds(lo, hi);
        let mut r: Vec<(K, V)> = Vec::new();
        let mut j = a;
        while j < b
            invariant
                a <= j <= b <= self@.len(),
                r@ == self@.subrange(a as int, j as int),
            decreases b - j,
        {
            r.push(self.entries[j]);
            proof {
                assert(r@ =~= self@.subrange(a as int, j + 1));
            }
            j += 1;
        }
        proof {
            assert(r@ == self@.subrange(a as int, b as int));
        }
        r
    }

    /// All entries whose key equals `key`, in map order.
    pub fn range_by_key(&self, key: &K) -> (r: Vec<(K, V)>)
        requires
            self.sorted(),
        ensures
            forall|i: int|
                0 <= i < r@.len() ==> self@.contains(#[trigger] r@[i]) && r@[i].0 == *key,
            forall|i: int|
                0 <= i < self@.len() && (#[trigger] self@[i]).0 == *key ==> r@.contains(self@[i]),
            entries_distinct(self@) ==> entries_distinct(r@),
    {
        proof {
            K::lemma_le_total(*key, *key);
        }
        let r = self.range_by(key, key);
        proof {
            let (a, b) = choose|a: int, b: int|
                {
                    &&& 0 <= a <= b <= self@.len()
                    &&& r@ == self@.subrange(a, b)
                    &&& forall|i: int| 0 <= i < a ==> !key.le_spec((#[trigger] self@[i]).0)
                    &&& forall|i: int|
                        a <= i < b ==> key.le_spec((#[trigger] self@[i]).0) && self@[i].0.le_spec(
                            *key,
                        )
                    &&& forall|i: int|
                        b <= i < self@.len() ==> !(#[trigger] self@[i]).0.le_spec(*key)
                };
            assert forall|i: int| 0 <= i < r@.len() implies self@.contains(#[trigger] r@[i])
                && r@[i].0 == *key by {
                assert(r@[i] == self@[a + i]);
                K::lemma_le_antisymmetric(self@[a + i].0, *key);
            }
            assert forall|i: int|
                0 <= i < self@.len() && (#[trigger] self@[i]).0 == *key implies r@.contains(
                self@[i],
            ) by {
                assert(a <= i < b);
                assert(self@[i] == r@[i - a]);
            }
            if entries_distinct(self@) {
                assert forall|i: int, j: int| 0 <= i < j < r@.len() implies #[trigger] r@[i]
                    != #[trigger] r@[j] by {
                    assert(r@[i] == self@[a + i]);
                    assert(r@[j] == self@[a + j]);
                }
            }
        }
        r
    }
}

impl<K: TotalOrdered, V> BSMap<K, V, SingleValue> {
    /// Well-formedness: sorted, with no key occurring twice.
    pub open spec fn well_formed(self) -> bool {
        self.sorted() && keys_distinct(self@)
    }

    /// Whether some entry has this key.
    pub open spec fn spec_contains_key(self, key: K) -> bool {
        exists|i: int| 0 <= i < self@.len() && (#[trigger] self@[i]).0 == key
    }

    pub fn get(&self, key: &K) -> (r: Option<&V>)
        requires
            self.sorted(),
        ensures
            match r {
                Some(v) => exists|i: int|
                    0 <= i < self@.len() && #[trigger] self@[i] == (*key, *v),
                None => !self.spec_contains_key(*key),
            },
    {
        let lower = self.lower_bound(key);
        if lower < self.entries.len() && self.entries[lower].0.le(key) {
            proof {
                K::lemma_le_antisymmetric(*key, self@[lower as int].0);
            }
            Some(&self.entries[lower].1)
        } else {
            proof {
                assert forall|i: int| 0 <= i < self@.len() implies (#[trigger] self@[i]).0
                    != *key by {
                    K::lemma_le_total(*key, *key);
                    if i >= lower && self@[i].0 == *key && lower < self@.len() {
                        K::lemma_le_transitive(self@[lower as int].0, self@[i].0, *key);
                    }
                }
            }
            None
        }
    }

    pub fn get_mut(&mut self, key: &K) -> (r: Option<&mut V>)
        requires
            old(self).sorted(),
        ensures
            match r {
                Some(v) => exists|i: int|
                    {
                        &&& 0 <= i < old(self)@.len()
                        &&& #[trigger] old(self)@[i] == (*key, *v)
                        &&& final(self)@ == old(self)@.update(i, (*key, *final(v)))
                    },
                None => !old(self).spec_contains_key(*key) && final(self)@ == old(self)@,
            },
    {
        let lower = self.lower_bound(key);
        if lower < self.entries.len() && self.entries[lower].0.le(key) {
            proof {
                K::lemma_le_antisymmetric(*key, self@[lower as int].0);
            }
            Some(&mut self.entries[lower].1)
        } else {
            proof {
                assert forall|i: int| 0 <= i < self@.len() implies (#[trigger] self@[i]).0
                    != *key by {
                    K::lemma_le_total(*key, *key);
                    if i >= lower && self@[i].0 == *key && lower < self@.len() {
                        K::lemma_le_transitive(self@[lower as int].0, self@[i].0, *key);
                    }
                }
            }
            None
        }
    }

    /// Inserts a value, replacing any previous value under the same key.
    pub fn insert(&mut self, key: K, value: V)
        requires
            old(self).well_formed(),
        ensures
            final(self).well_formed(),
            final(self).spec_contains_key(key),
            forall|k2: K|
                #[trigger] final(self).spec_contains_key(k2) <==> (old(self).spec_contains_key(k2)
                    || k2 == key),
            forall|e: (K, V)|
                #[trigger] final(self)@.contains(e) <==> ((old(self)@.contains(e) && e.0 != key)
                    || e == (key, value)),
            exists|i: int|
                {
                    &&& 0 <= i < final(self)@.len()
                    &&& #[trigger] final(self)@[i] == (key, value)
                    &&& (if old(self).spec_contains_key(key) {
                        0 <= i < old(self)@.len() && old(self)@[i].0 == key && final(self)@ == old(
                            self,
                        )@.update(i, (key, value))
                    } else {
                        0 <= i <= old(self)@.len() && final(self)@ == old(self)@.insert(
                            i,
                            (key, value),
                        )
                    })
                },
    {
        let lower = self.lower_bound(&key);
        let ghost s0 = self@;
        if lower < self.entries.len() && self.entries[lower].0.le(&key) {
            proof {
                K::lemma_le_antisymmetric(key, self@[lower as int].0);
            }
            self.entries[lower] = (key, value);
            proof {
                let i = lower as int;
                assert(self@ =~= s0.update(i, (key, value)));
                assert(self@[i] == (key, value));
                assert forall|k2: K|
                    #[trigger] self.spec_contains_key(k2) <==> ((exists|w: int|
                        0 <= w < s0.len() && (#[trigger] s0[w]).0 == k2) || k2 == key) by {
                    if self.spec_contains_key(k2) {
                        let w = choose|w: int|
                            0 <= w < self@.len() && (#[trigger] self@[w]).0 == k2;
                        if w != i {
                            assert(s0[w].0 == k2);
                        }
                    }
                    if exists|w: int| 0 <= w < s0.len() && (#[trigger] s0[w]).0 == k2 {
                        let w = choose|w: int| 0 <= w < s0.len() && (#[trigger] s0[w]).0 == k2;
                        if w != i {
                            assert(self@[w].0 == k2);
                        } else {
                            assert(self@[i].0 == key);
                        }
                    }
                    if k2 == key {
                        assert(self@[i].0 == k2);
                    }
                }
                assert forall|e: (K, V)|
                    #[trigger] self@.contains(e) <==> ((s0.contains(e) && e.0 != key) || e == (
                        key,
                        value,
                    )) by {
                    if self@.contains(e) {
                        let w = choose|w: int| 0 <= w < self@.len() && self@[w] == e;
                        if w != i {
                            assert(s0[w] == e);
                            assert(s0.contains(e));
                            assert(s0[w].0 != s0[i].0);
                        }
                    }
                    if s0.contains(e) && e.0 != key {
                        let w = choose|w: int| 0 <= w < s0.len() && s0[w] == e;
                        assert(w != i);
                        assert(self@[w] == e);
                    }
                    if e == (key, value) {
                        assert(self@[i] == e);
                    }
                }
                assert forall|p: int, q: int|
                    0 <= p <= q < self@.len() implies (#[trigger] self@[p]).0.le_spec((#[trigger] self@[q]).0) by {
                    K::lemma_le_total(key, key);
                    if p == i && q != i {
                        K::lemma_le_transitive(key, s0[i].0, s0[q].0);
                    }
                    if q == i && p != i {
                        K::lemma_le_transitive(s0[p].0, s0[i].0, key);
                    }
                }
            }
        } else {
            proof {
                assert forall|i: int| 0 <= i < s0.len() implies (#[trigger] s0[i]).0 != key by {
                    K::lemma_le_total(key, key);
                    if i >= lower && s0[i].0 == key && lower < s0.len() {
                        K::lemma_le_transitive(s0[lower as int].0, s0[i].0, key);
                    }
                }
            }
            self.entries.insert(lower, (key, value));
            proof {
                let i = lower as int;
                assert(self@ =~= s0.insert(i, (key, value)));
                assert(self@[i] == (key, value));
                assert forall|k2: K|
                    #[trigger] self.spec_contains_key(k2) <==> ((exists|w: int|
                        0 <= w < s0.len() && (#[trigger] s0[w]).0 == k2) || k2 == key) by {
                    if self.spec_contains_key(k2) {
                        let w = choose|w: int|
                            0 <= w < self@.len() && (#[trigger] self@[w]).0 == k2;
                        if w < i {
                            assert(s0[w].0 == k2);
                        } else if w > i {
                            assert(s0[w - 1].0 == k2);
                        }
                    }
                    if exists|w: int| 0 <= w < s0.len() && (#[trigger] s0[w]).0 == k2 {
                        let w = choose|w: int| 0 <= w < s0.len() && (#[trigger] s0[w]).0 == k2;
                        if w < i {
                            assert(self@[w].0 == k2);
                        } else {
                            assert(self@[w + 1].0 == k2);
                        }
                    }
                    if k2 == key {
                        assert(self@[i].0 == k2);
                    }
                }
                assert forall|e: (K, V)|
                    #[trigger] self@.contains(e) <==> ((s0.contains(e) && e.0 != key) || e == (
                        key,
                        value,
                    )) by {
                    if self@.contains(e) {
                        let w = choose|w: int| 0 <= w < self@.len() && self@[w] == e;
                        if w < i {
                            assert(s0[w] == e);
                            assert(s0.contains(e));
                        } else if w > i {
                            assert(s0[w - 1] == e);
                            assert(s0.contains(e));
                        }
                        if w != i && e.0 == key {
                            assert(false);
                        }
                    }
                    if s0.contains(e) && e.0 != key {
                        let w = choose|w: int| 0 <= w < s0.len() && s0[w] == e;
                        if w < i {
                            assert(self@[w] == e);
                        } else {
                            assert(self@[w + 1] == e);
                        }
                    }
                    if e == (key, value) {
                        assert(self@[i] == e);
                    }
                }
                assert forall|p: int, q: int|
                    0 <= p <= q < self@.len() implies (#[trigger] self@[p]).0.le_spec((#[trigger] self@[q]).0) by {
                    K::lemma_le_total(key, key);
                    if p < i && q > i {
                        assert(self@[p] == s0[p]);
                        assert(self@[q] == s0[q - 1]);
                    }
                    if q == i && p < i {
                        // entries below the insertion point are below key
                        K::lemma_le_total(key, s0[p].0);
                    }
                    if p == i && q > i {
                        assert(self@[q] == s0[q - 1]);
                    }
                }
                assert forall|p: int, q: int|
                    0 <= p < q < self@.len() implies (#[trigger] self@[p]).0 != (
                #[trigger] self@[q]).0 by {
                    if p != i && q != i {
                        let p0: int = if p < i {
                            p
                        } else {
                            p - 1
                        };
                        let q0: int = if q < i {
                            q
                        } else {
                            q - 1
                        };
                        assert(self@[p] == s0[p0]);
                        assert(self@[q] == s0[q0]);
                    }
                    if p == i {
                        assert(self@[q] == s0[q - 1]);
                    }
                    if q == i {
                        assert(self@[p] == s0[p]);
                        K::lemma_le_total(key, s0[p].0);
                    }
                }
            }
        }
    }

    /// Removes the entry with this key, if any, and returns its value.
    pub fn remove(&mut self, key: &K) -> (r: Option<V>)
        requires
            old(self).well_formed(),
        ensures
            final(self).well_formed(),
            !final(self).spec_contains_key(*key),
            forall|k2: K|
                #[trigger] final(self).spec_contains_key(k2) <==> (old(self).spec_contains_key(k2)
                    && k2 != *key),
            forall|e: (K, V)|
                #[trigger] final(self)@.contains(e) <==> (old(self)@.contains(e) && e.0 != *key),
            match r {
                Some(v) => exists|i: int|
                    {
                        &&& 0 <= i < old(self)@.len()
                        &&& #[trigger] old(self)@[i] == (*key, v)
                        &&& final(self)@ == old(self)@.remove(i)
                    },
                None => !old(self).spec_contains_key(*key) && final(self)@ == old(self)@,
            },
    {
        let lower = self.lower_bound(key);
        let ghost s0 = self@;
        if lower < self.entries.len() && self.entries[lower].0.le(key) {
            proof {
                K::lemma_le_antisymmetric(*key, self@[lower as int].0);
            }
            let (_, v) = self.entries.remove(lower);
            proof {
                let i = lower as int;
                assert(self@ =~= s0.remove(i));
                assert forall|p: int, q: int|
                    0 <= p <= q < self@.len() implies (#[trigger] self@[p]).0.le_spec((#[trigger] self@[q]).0) by {
                    let p0: int = if p < i {
                        p
                    } else {
                        p + 1
                    };
                    let q0: int = if q < i {
                        q
                    } else {
                        q + 1
                    };
                    assert(self@[p] == s0[p0]);
                    assert(self@[q] == s0[q0]);
                }
                assert forall|p: int, q: int|
                    0 <= p < q < self@.len() implies (#[trigger] self@[p]).0 != (
                #[trigger] self@[q]).0 by {
                    let p0: int = if p < i {
                        p
                    } else {
                        p + 1
                    };
                    let q0: int = if q < i {
                        q
                    } else {
                        q + 1
                    };
                    assert(self@[p] == s0[p0]);
                    assert(self@[q] == s0[q0]);
                }
                assert forall|j: int| 0 <= j < self@.len() implies (#[trigger] self@[j]).0 != *key by {
                    let j0: int = if j < i {
                        j
                    } else {
                        j + 1
                    };
                    assert(self@[j] == s0[j0]);
                }
                assert forall|e: (K, V)|
                    #[trigger] self@.contains(e) <==> (s0.contains(e) && e.0 != *key) by {
                    if self@.contains(e) {
                        let w = choose|w: int| 0 <= w < self@.len() && self@[w] == e;
                        let w0: int = if w < i {
                            w
                        } else {
                            w + 1
                        };
                        assert(s0[w0] == e);
                        assert(s0.contains(e));
                        if e.0 == *key {
                            assert(s0[w0].0 == s0[i].0);
                            assert(false);
                        }
                    }
                    if s0.contains(e) && e.0 != *key {
                        let w = choose|w: int| 0 <= w < s0.len() && s0[w] == e;
                        assert(w != i);
                        if w < i {
                            assert(self@[w] == e);
                        } else {
                            assert(self@[w - 1] == e);
                        }
                    }
                }
                assert forall|k2: K|
                    #[trigger] self.spec_contains_key(k2) <==> ((exists|w: int|
                        0 <= w < s0.len() && (#[trigger] s0[w]).0 == k2) && k2 != *key) by {
                    if self.spec_contains_key(k2) {
                        let w = choose|w: int|
                            0 <= w < self@.len() && (#[trigger] self@[w]).0 == k2;
                        let w0: int = if w < i {
                            w
                        } else {
                            w + 1
                        };
                        assert(s0[w0].0 == k2);
                    }
                    if (exists|w: int| 0 <= w < s0.len() && (#[trigger] s0[w]).0 == k2) && k2
                        != *key {
                        let w = choose|w: int| 0 <= w < s0.len() && (#[trigger] s0[w]).0 == k2;
                        if w < i {
                            assert(self@[w].0 == k2);
                        } else {
                            assert(w != i);
                            assert(self@[w - 1].0 == k2);
                        }
                    }
                }
            }
            Some(v)
        } else {
            proof {
                assert forall|i: int| 0 <= i < self@.len() implies (#[trigger] self@[i]).0
                    != *key by {
                    K::lemma_le_total(*key, *key);
                    if i >= lower && self@[i].0 == *key && lower < self@.len() {
                        K::lemma_le_transitive(self@[lower as int].0, self@[i].0, *key);
                    }
                }
            }
            None
        }
    }
}


/// Executable equality tied to specification-level equality, for values held
/// in multimaps.
pub trait ExactEq: Sized {
    fn exact_eq(&self, other: &Self) -> (r: bool)
        ensures
            r == (self == other),
    ;
}

impl ExactEq for () {
    fn exact_eq(&self, other: &Self) -> (r: bool) {
        true
    }
}

impl ExactEq for u64 {
    fn exact_eq(&self, other: &Self) -> (r: bool) {
        *self == *other
    }
}

impl ExactEq for usize {
    fn exact_eq(&self, other: &Self) -> (r: bool) {
        *self == *other
    }
}

impl<K: TotalOrdered + Copy, V: Copy + ExactEq> BSMap<K, V, ValueSet> {
    /// Well-formedness: sorted, with no entry occurring twice (one key may
    /// carry several distinct values).
    pub open spec fn multi_wf(self) -> bool {
        self.sorted() && entries_distinct(self@)
    }

    /// All entries under the given key, in map order.
    pub fn range(&self, key: K) -> (r: Vec<(K, V)>)
        requires
            self.sorted(),
        ensures
            forall|i: int|
                0 <= i < r@.len() ==> self@.contains(#[trigger] r@[i]) && r@[i].0 == key,
            forall|i: int|
                0 <= i < self@.len() && (#[trigger] self@[i]).0 == key ==> r@.contains(self@[i]),
            entries_distinct(self@) ==> entries_distinct(r@),
    {
        self.range_by_key(&key)
    }

    pub fn contains_entry(&self, key: &K, value: &V) -> (r: bool)
        requires
            self.sorted(),
        ensures
            r == self@.contains((*key, *value)),
    {
        let band = self.range_by_key(key);
        let mut j: usize = 0;
        while j < band.len()
            invariant
                j <= band@.len(),
                forall|i: int|
                    0 <= i < band@.len() ==> self@.contains(#[trigger] band@[i]) && band@[i].0
                        == *key,
                forall|i: int|
                    0 <= i < self@.len() && (#[trigger] self@[i]).0 == *key ==> band@.contains(
                        self@[i],
                    ),
                forall|i: int| 0 <= i < j ==> (#[trigger] band@[i]).1 != *value,
            decreases band@.len() - j,
        {
            if band[j].1.exact_eq(value) {
                assert(self@.contains(band@[j as int]));
                return true;
            }
            j += 1;
        }
        proof {
            if self@.contains((*key, *value)) {
                let i = choose|i: int| 0 <= i < self@.len() && self@[i] == (*key, *value);
                assert(band@.contains(self@[i]));
            }
        }
        false
    }

    /// Inserts an entry unless an identical entry is already present.
    pub fn insert_value(&mut self, key: K, value: V)
        requires
            old(self).multi_wf(),
        ensures
            final(self).multi_wf(),
            final(self)@.contains((key, value)),
            old(self)@.contains((key, value)) ==> final(self)@ == old(self)@,
            !old(self)@.contains((key, value)) ==> exists|i: int|
                {
                    &&& 0 <= i <= old(self)@.len()
                    &&& final(self)@ == old(self)@.insert(i, (key, value))
                    // at the end of the key's run: everything before is at or
                    // below the key, everything after is strictly above it
                    &&& forall|w: int|
                        0 <= w < i ==> (#[trigger] old(self)@[w]).0.le_spec(key)
                    &&& forall|w: int|
                        i <= w < old(self)@.len() ==> !(#[trigger] old(self)@[w]).0.le_spec(key)
                },
            forall|e: (K, V)| final(self)@.contains(e) <==> (old(self)@.contains(e) || e == (key, value)),
    {
        if self.contains_entry(&key, &value) {
            proof {
                assert forall|e: (K, V)| self@.contains(e) <==> (self@.contains(e) || e == (
                    key,
                    value,
                )) by {}
            }
            return;
        }
        let ghost s0 = self@;
        proof {
            K::lemma_le_total(key, key);
        }
        let (_, upper) = self.range_bounds(&key, &key);
        self.entries.insert(upper, (key, value));
        proof {
            let i = upper as int;
            assert(self@ =~= s0.insert(i, (key, value)));
            assert(self@[i] == (key, value));
            assert forall|w: int| 0 <= w < i implies (#[trigger] s0[w]).0.le_spec(key) by {
                K::lemma_le_total(s0[w].0, key);
            }
            assert forall|p: int, q: int|
                0 <= p <= q < self@.len() implies (#[trigger] self@[p]).0.le_spec(
                (#[trigger] self@[q]).0) by {
                K::lemma_le_total(key, key);
                if p < i && q > i {
                    assert(self@[p] == s0[p]);
                    assert(self@[q] == s0[q - 1]);
                }
                if q == i && p < i {
                    assert(self@[p] == s0[p]);
                    K::lemma_le_total(s0[p].0, key);
                }
                if p == i && q > i {
                    assert(self@[q] == s0[q - 1]);
                    K::lemma_le_total(key, s0[q - 1].0);
                }
            }
            assert forall|p: int, q: int| 0 <= p < q < self@.len() implies #[trigger] self@[p]
                != #[trigger] self@[q] by {
                if p != i && q != i {
                    let p0: int = if p < i { p } else { p - 1 };
                    let q0: int = if q < i { q } else { q - 1 };
                    assert(self@[p] == s0[p0]);
                    assert(self@[q] == s0[q0]);
                }
                if p == i {
                    assert(self@[q] == s0[q - 1]);
                    if self@[q] == (key, value) {
                        assert(s0.contains(s0[q - 1]));
                    }
                }
                if q == i {
                    assert(self@[p] == s0[p]);
                    if self@[p] == (key, value) {
                        assert(s0.contains(s0[p]));
                    }
                }
            }
            assert forall|e: (K, V)| self@.contains(e) <==> (s0.contains(e) || e == (
                key,
                value,
            )) by {
                if self@.contains(e) {
                    let j = choose|j: int| 0 <= j < self@.len() && self@[j] == e;
                    if j != i {
                        let j0: int = if j < i { j } else { j - 1 };
                        assert(s0[j0] == e);
                        assert(s0.contains(s0[j0]));
                    }
                }
                if s0.contains(e) {
                    let j = choose|j: int| 0 <= j < s0.len() && s0[j] == e;
                    let j1: int = if j < i { j } else { j + 1 };
                    assert(self@[j1] == e);
                }
            }
        }
    }

    /// Removes the entry with this key and value, if present, and returns the
    /// value.
    pub fn remove_value(&mut self, key: &K, value: &V) -> (r: Option<V>)
        requires
            old(self).multi_wf(),
        ensures
            final(self).multi_wf(),
            !final(self)@.contains((*key, *value)),
            match r {
                Some(v) => old(self)@.contains((*key, *value)) && v == *value && exists|i: int|
                    {
                        &&& 0 <= i < old(self)@.len()
                        &&& old(self)@[i] == (*key, *value)
                        &&& final(self)@ == old(self)@.remove(i)
                    },
                None => !old(self)@.contains((*key, *value)) && final(self)@ == old(self)@,
            },
            forall|e: (K, V)| final(self)@.contains(e) <==> (old(self)@.contains(e) && e != (*key, *value)),
    {
        proof {
            K::lemma_le_total(*key, *key);
        }
        let (lower, upper) = self.range_bounds(key, key);
        let ghost s0 = self@;
        let mut j = lower;
        while j < upper
            invariant
                lower <= j <= upper <= self@.len(),
                self.multi_wf(),
                s0 == self@,
                s0 == old(self)@,
                forall|i: int| lower <= i < j ==> #[trigger] self@[i] != (*key, *value),
                forall|i: int| 0 <= i < lower ==> !key.le_spec((#[trigger] self@[i]).0),
                forall|i: int|
                    lower <= i < upper ==> key.le_spec((#[trigger] self@[i]).0)
                        && self@[i].0.le_spec(*key),
                forall|i: int| upper <= i < self@.len() ==> !(#[trigger] self@[i]).0.le_spec(*key),
            decreases upper - j,
        {
            if self.entries[j].0.le(key) && key.le(&self.entries[j].0)
                && self.entries[j].1.exact_eq(value) {
                proof {
                    K::lemma_le_antisymmetric(self@[j as int].0, *key);
                }
                let (_, v) = self.entries.remove(j);
                proof {
                    let i = j as int;
                    assert(s0 == old(self)@);
                    assert(s0[i].0 == *key && s0[i].1 == *value);
                    assert(s0[i] == (*key, *value));
                    assert(s0.contains(s0[i]));
                    assert(self@ =~= s0.remove(i));
                    assert forall|p: int, q: int|
                        0 <= p <= q < self@.len() implies (#[trigger] self@[p]).0.le_spec(
                        (#[trigger] self@[q]).0) by {
                        let p0: int = if p < i { p } else { p + 1 };
                        let q0: int = if q < i { q } else { q + 1 };
                        assert(self@[p] == s0[p0]);
                        assert(self@[q] == s0[q0]);
                    }
                    assert forall|p: int, q: int|
                        0 <= p < q < self@.len() implies #[trigger] self@[p] != #[trigger] self@[q] by {
                        let p0: int = if p < i { p } else { p + 1 };
                        let q0: int = if q < i { q } else { q + 1 };
                        assert(self@[p] == s0[p0]);
                        assert(self@[q] == s0[q0]);
                    }
                    assert forall|e: (K, V)| self@.contains(e) <==> (s0.contains(e) && e != (
                        *key,
                        *value,
                    )) by {
                        if self@.contains(e) {
                            let t = choose|t: int| 0 <= t < self@.len() && self@[t] == e;
                            let t0: int = if t < i { t } else { t + 1 };
                            assert(s0[t0] == e);
                            assert(s0.contains(s0[t0]));
                        }
                        if s0.contains(e) && e != (*key, *value) {
                            let t = choose|t: int| 0 <= t < s0.len() && s0[t] == e;
                            if t != i {
                                let t1: int = if t < i { t } else { t - 1 };
                                assert(self@[t1] == e);
                            }
                        }
                    }
                    assert(!self@.contains((*key, *value)));
                }
                return Some(v);
            }
            proof {
                if self@[j as int] == (*key, *value) {
                    K::lemma_le_total(*key, *key);
                }
            }
            j += 1;
        }
        proof {
            assert forall|i: int| 0 <= i < self@.len() implies #[trigger] self@[i] != (
                *key,
                *value,
            ) by {
                K::lemma_le_total(*key, *key);
            }
            if self@.contains((*key, *value)) {
                let t = choose|t: int| 0 <= t < self@.len() && self@[t] == (*key, *value);
            }
        }
        None
    }
}

/// An interleaved merge over two cursor-tagged sequences, meant for joining
/// two datasets with one shared axis and different sample rates.
///
/// Items carry a cursor value and come out ordered by increasing cursor,
/// together with their running index within their own side.
pub struct Interleaved<Ai, Bi, C> {
    pub a: Vec<(C, Ai)>,
    pub b: Vec<(C, Bi)>,
    /// How many items the first side has yielded.
    pub a_index: usize,
    /// How many items the second side has yielded.
    pub b_index: usize,
}

pub enum InterleavedItem<Ai, Bi> {
    A(Ai, usize),
    B(Bi, usize),
}

impl<Ai: Copy, Bi: Copy, C: TotalOrdered + Copy> Interleaved<Ai, Bi, C> {
    /// The yield counters never run past their sides.
    pub open spec fn positions_valid(self) -> bool {
        self.a_index <= self.a@.len() && self.b_index <= self.b@.len()
    }

    /// Remaining items on the first side.
    pub closed spec fn rem_a(self) -> Seq<(C, Ai)> {
        self.a@.skip(self.a_index as int)
    }

    /// Remaining items on the second side.
    pub closed spec fn rem_b(self) -> Seq<(C, Bi)> {
        self.b@.skip(self.b_index as int)
    }

    pub fn new(a: Vec<(C, Ai)>, b: Vec<(C, Bi)>) -> (r: Interleaved<Ai, Bi, C>)
        ensures
            r.positions_valid(),
            r.rem_a() == a@,
            r.rem_b() == b@,
    {
        proof {
            assert(a@.skip(0) =~= a@);
            assert(b@.skip(0) =~= b@);
        }
        Interleaved { a, b, a_index: 0, b_index: 0 }
    }

    /// Takes the next item across both sides, preferring the first side on
    /// equal cursors.
    pub fn next(&mut self) -> (r: Option<InterleavedItem<Ai, Bi>>)
        requires
            old(self).positions_valid(),
        ensures
            final(self).positions_valid(),
            match r {
                Some(item) => match item {
                    InterleavedItem::A(x, idx) => {
                        &&& old(self).rem_a().len() > 0
                        &&& (old(self).rem_b().len() > 0 ==> old(self).rem_a()[0].0.le_spec(
                            old(self).rem_b()[0].0,
                        ))
                        &&& (x, idx) == (old(self).rem_a()[0].1, old(self).a_index)
                        &&& final(self).rem_a() == old(self).rem_a().skip(1)
                        &&& final(self).rem_b() == old(self).rem_b()
                    },
                    InterleavedItem::B(x, idx) => {
                        &&& old(self).rem_b().len() > 0
                        &&& (old(self).rem_a().len() > 0 ==> !old(self).rem_a()[0].0.le_spec(
                            old(self).rem_b()[0].0,
                        ))
                        &&& (x, idx) == (old(self).rem_b()[0].1, old(self).b_index)
                        &&& final(self).rem_a() == old(self).rem_a()
                        &&& final(self).rem_b() == old(self).rem_b().skip(1)
                    },
                },
                None => old(self).rem_a().len() == 0 && old(self).rem_b().len() == 0
                    && final(self).rem_a() == old(self).rem_a() && final(self).rem_b() == old(
                    self,
                ).rem_b(),
            },
    {
        let a_left = self.a.len() - self.a_index;
        let b_left = self.b.len() - self.b_index;
        proof {
            assert(self.rem_a().len() == self.a@.len() - self.a_index);
            assert(self.rem_b().len() == self.b@.len() - self.b_index);
        }
        if a_left == 0 && b_left == 0 {
            None
        } else if a_left == 0 {
            let item = &self.b[self.b_index];
            let idx = self.b_index;
            let r = InterleavedItem::B(item.1, idx);
            self.b_index += 1;
            proof {
                assert(self.rem_b() =~= old(self).rem_b().skip(1));
                assert(self.rem_a() =~= old(self).rem_a());
            }
            Some(r)
        } else if b_left == 0 {
            let item = &self.a[self.a_index];
            let idx = self.a_index;
            let r = InterleavedItem::A(item.1, idx);
            self.a_index += 1;
            proof {
                assert(self.rem_a() =~= old(self).rem_a().skip(1));
                assert(self.rem_b() =~= old(self).rem_b());
            }
            Some(r)
        } else {
            if self.a[self.a_index].0.le(&self.b[self.b_index].0) {
                let idx = self.a_index;
                let r = InterleavedItem::A(self.a[self.a_index].1, idx);
                self.a_index += 1;
                proof {
                    assert(self.rem_a() =~= old(self).rem_a().skip(1));
                    assert(self.rem_b() =~= old(self).rem_b());
                }
                Some(r)
            } else {
                let idx = self.b_index;
                let r = InterleavedItem::B(self.b[self.b_index].1, idx);
                self.b_index += 1;
                proof {
                    assert(self.rem_b() =~= old(self).rem_b().skip(1));
                    assert(self.rem_a() =~= old(self).rem_a());
                }
                Some(r)
            }
        }
    }
}

} // verus!

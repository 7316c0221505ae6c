//! A map kept as a vector of entries in ascending order of their keys.
//!
//! Nothing occurs twice, and the order in which the keys are met is their
//! own order, whatever the order in which they were put in. A table with
//! values of type `()` is a set.

use crate::order::Key;
use crate::order::Order;
use vstd::prelude::*;

verus! {

/// A map from keys to values, in ascending order of the keys.
#[derive(Clone, PartialEq, Eq, Debug)]
pub struct Table<K: Key, V> {
    pub entries: Vec<(K, V)>,
}

/// A set of keys, in ascending order.
pub type Group<K> = Table<K, ()>;

/// Each element of the sequence comes before all that follow it.
pub open spec fn ascending<K: Key>(s: Seq<K::V>) -> bool {
    forall|i: int, j: int| 0 <= i < j < s.len() ==> K::before(s[i], s[j])
}

/// An ascending sequence is determined by the set of its elements.
pub proof fn lemma_ascending_unique<K: Key>(s: Seq<K::V>, t: Seq<K::V>)
    requires
        ascending::<K>(s),
        ascending::<K>(t),
        forall|k: K::V| s.contains(k) <==> t.contains(k),
    ensures
        s == t,
    decreases s.len(),
{
    if s.len() == 0 {
        if t.len() > 0 {
            assert(t.contains(t[0]));
        }
        assert(s =~= t);
    } else if t.len() == 0 {
        assert(s.contains(s[0]));
    } else {
        // The two first elements are both the least of the common set.
        assert(s.contains(s[0]));
        assert(t.contains(t[0]));
        let i = choose|i: int| 0 <= i < t.len() && t[i] == s[0];
        let j = choose|j: int| 0 <= j < s.len() && s[j] == t[0];
        if s[0] != t[0] {
            K::lemma_transitive(t[0], t[i], s[j]);
            K::lemma_irreflexive(t[0]);
        }
        let s1 = s.drop_first();
        let t1 = t.drop_first();
        assert forall|k: K::V| s1.contains(k) <==> t1.contains(k) by {
            if s1.contains(k) {
                let a = choose|a: int| 0 <= a < s1.len() && s1[a] == k;
                assert(s[a + 1] == k);
                assert(s.contains(k));
                let b = choose|b: int| 0 <= b < t.len() && t[b] == k;
                if b == 0 {
                    K::lemma_irreflexive(k);
                }
                assert(t1[b - 1] == k);
            }
            if t1.contains(k) {
                let a = choose|a: int| 0 <= a < t1.len() && t1[a] == k;
                assert(t[a + 1] == k);
                assert(t.contains(k));
                let b = choose|b: int| 0 <= b < s.len() && s[b] == k;
                if b == 0 {
                    K::lemma_irreflexive(k);
                }
                assert(s1[b - 1] == k);
            }
        }
        assert(ascending::<K>(s1)) by {
            assert forall|a: int, b: int| 0 <= a < b < s1.len() implies K::before(
                s1[a],
                s1[b],
            ) by {
                assert(K::before(s[a + 1], s[b + 1]));
            }
        }
        assert(ascending::<K>(t1)) by {
            assert forall|a: int, b: int| 0 <= a < b < t1.len() implies K::before(
                t1[a],
                t1[b],
            ) by {
                assert(K::before(t[a + 1], t[b + 1]));
            }
        }
        lemma_ascending_unique::<K>(s1, t1);
        assert(s =~= seq![s[0]] + s1);
        assert(t =~= seq![t[0]] + t1);
    }
}

/// `x` is in the set and comes before every other element of it.
pub open spec fn is_least<K: Key>(s: Set<K::V>, x: K::V) -> bool {
    &&& s.contains(x)
    &&& forall|y: K::V| #[trigger] s.contains(y) ==> y == x || K::before(x, y)
}

/// The least element of a set that has one.
pub open spec fn least<K: Key>(s: Set<K::V>) -> K::V {
    choose|x: K::V| is_least::<K>(s, x)
}

/// The elements of a set in ascending order.
pub open spec fn sorted<K: Key>(s: Set<K::V>) -> Seq<K::V> {
    choose|q: Seq<K::V>| ascending::<K>(q) && q.to_set() == s
}

/// A set has one least element at most.
pub proof fn lemma_least_unique<K: Key>(s: Set<K::V>, x: K::V, y: K::V)
    requires
        is_least::<K>(s, x),
        is_least::<K>(s, y),
    ensures
        x == y,
{
    if x != y {
        K::lemma_transitive(x, y, x);
        K::lemma_irreflexive(x);
    }
}

/// A finite set that is not empty has a least element.
pub proof fn lemma_least_exists<K: Key>(s: Set<K::V>)
    requires
        s.finite(),
        s.len() > 0,
    ensures
        is_least::<K>(s, least::<K>(s)),
    decreases s.len(),
{
    let x = s.choose();
    let rest = s.remove(x);
    if rest.len() == 0 {
        assert forall|y: K::V| #[trigger] s.contains(y) implies y == x by {
            if y != x {
                assert(rest.contains(y));
            }
        }
        assert(is_least::<K>(s, x));
    } else {
        lemma_least_exists::<K>(rest);
        let m = least::<K>(rest);
        assert(rest.contains(m));
        K::lemma_total(x, m);
        if K::before(x, m) {
            assert forall|y: K::V| #[trigger] s.contains(y) implies y == x || K::before(x, y) by {
                if y != x {
                    assert(rest.contains(y));
                    if y != m {
                        K::lemma_transitive(x, m, y);
                    }
                }
            }
            assert(is_least::<K>(s, x));
        } else {
            assert forall|y: K::V| #[trigger] s.contains(y) implies y == m || K::before(m, y) by {
                if y != x {
                    assert(rest.contains(y));
                }
            }
            assert(is_least::<K>(s, m));
        }
    }
}

/// The ascending sequence of a set is the only one.
pub proof fn lemma_sorted<K: Key>(q: Seq<K::V>)
    requires
        ascending::<K>(q),
    ensures
        sorted::<K>(q.to_set()) == q,
        q.len() > 0 ==> is_least::<K>(q.to_set(), q[0]) && least::<K>(q.to_set()) == q[0],
{
    let s = q.to_set();
    let t = sorted::<K>(s);
    assert(ascending::<K>(t) && t.to_set() == s);
    assert forall|k: K::V| t.contains(k) <==> q.contains(k) by {
        assert(t.to_set().contains(k) <==> t.contains(k));
        assert(q.to_set().contains(k) <==> q.contains(k));
    }
    lemma_ascending_unique::<K>(t, q);
    if q.len() > 0 {
        assert(q.contains(q[0]));
        assert forall|y: K::V| #[trigger] s.contains(y) implies y == q[0] || K::before(
            q[0],
            y,
        ) by {
            assert(q.contains(y));
            let i = choose|i: int| 0 <= i < q.len() && q[i] == y;
            if i > 0 {
                assert(K::before(q[0], q[i]));
            }
        }
        assert(is_least::<K>(s, q[0]));
        assert(is_least::<K>(s, least::<K>(s)));
        lemma_least_unique::<K>(s, q[0], least::<K>(s));
    }
}

impl<K: Key, V> Table<K, V> {
    /// The keys, in the order of the entries.
    pub open spec fn keys(&self) -> Seq<K::V> {
        Seq::new(self.entries@.len(), |i: int| self.entries@[i].0@)
    }

    /// The entries stand in ascending order of their keys.
    pub open spec fn wf(&self) -> bool {
        forall|i: int, j: int|
            0 <= i < j < self.entries@.len() ==> K::before(
                self.entries@[i].0@,
                self.entries@[j].0@,
            )
    }

    /// The table holds the key.
    pub open spec fn has(&self, k: K::V) -> bool {
        exists|i: int| 0 <= i < self.entries@.len() && self.entries@[i].0@ == k
    }

    /// Where the key stands.
    pub open spec fn slot(&self, k: K::V) -> int {
        choose|i: int| 0 <= i < self.entries@.len() && self.entries@[i].0@ == k
    }

    /// The value kept for the key.
    pub open spec fn value(&self, k: K::V) -> V {
        self.entries@[self.slot(k)].1
    }

    /// The set of the keys.
    pub open spec fn dom(&self) -> Set<K::V> {
        Set::new(|k: K::V| self.has(k))
    }

    /// A key stands at one place only.
    pub proof fn lemma_slot(&self, i: int)
        requires
            self.wf(),
            0 <= i < self.entries@.len(),
        ensures
            self.has(self.entries@[i].0@),
            self.slot(self.entries@[i].0@) == i,
            self.value(self.entries@[i].0@) == self.entries@[i].1,
    {
        let k = self.entries@[i].0@;
        let j = self.slot(k);
        if j < i {
            assert(K::before(self.entries@[j].0@, self.entries@[i].0@));
            K::lemma_irreflexive(k);
        } else if i < j {
            assert(K::before(self.entries@[i].0@, self.entries@[j].0@));
            K::lemma_irreflexive(k);
        }
    }

    /// The keys are the ascending sequence of the key set.
    pub proof fn lemma_keys(&self)
        requires
            self.wf(),
        ensures
            ascending::<K>(self.keys()),
            forall|k: K::V| self.keys().contains(k) <==> self.has(k),
            self.dom().finite(),
            self.dom().len() == self.entries@.len(),
            self.dom() == self.keys().to_set(),
    {
        let keys = self.keys();
        assert forall|k: K::V| keys.contains(k) <==> self.has(k) by {
            if keys.contains(k) {
                let i = choose|i: int| 0 <= i < keys.len() && keys[i] == k;
                assert(self.entries@[i].0@ == k);
            }
            if self.has(k) {
                let i = self.slot(k);
                assert(keys[i] == k);
            }
        }
        assert(self.dom() =~= keys.to_set());
        assert(keys.no_duplicates()) by {
            assert forall|i: int, j: int| 0 <= i < keys.len() && 0 <= j < keys.len() && i != j
                implies keys[i] != keys[j] by {
                if i < j {
                    assert(K::before(keys[i], keys[j]));
                } else {
                    assert(K::before(keys[j], keys[i]));
                }
                K::lemma_irreflexive(keys[i]);
            }
        }
        keys.unique_seq_to_set();
    }

    /// The table without entries.
    pub fn new() -> (r: Self)
        ensures
            r.wf(),
            r.entries@.len() == 0,
            forall|k: K::V| !#[trigger] r.has(k),
    {
        Table { entries: Vec::new() }
    }

    /// The number of entries.
    pub fn len(&self) -> (r: usize)
        ensures
            r == self.entries@.len(),
    {
        self.entries.len()
    }

    /// Whether the entries stand in ascending order of their keys.
    pub fn is_ascending(&self) -> (r: bool)
        ensures
            r == self.wf(),
    {
        let mut i: usize = 1;
        while i < self.entries.len()
            invariant
                1 <= i,
                forall|a: int, b: int|
                    0 <= a < b < i && b < self.entries@.len() ==> K::before(
                        self.entries@[a].0@,
                        self.entries@[b].0@,
                    ),
            decreases self.entries@.len() - i,
        {
            match self.entries[i - 1].0.compare(&self.entries[i].0) {
                Order::Less => {
                    proof {
                        assert forall|a: int, b: int|
                            0 <= a < b < i + 1 && b < self.entries@.len() implies K::before(
                            self.entries@[a].0@,
                            self.entries@[b].0@,
                        ) by {
                            if b == i && a < i - 1 {
                                K::lemma_transitive(
                                    self.entries@[a].0@,
                                    self.entries@[i - 1].0@,
                                    self.entries@[i as int].0@,
                                );
                            }
                        }
                    }
                },
                Order::Equal => {
                    proof {
                        K::lemma_irreflexive(self.entries@[i as int].0@);
                    }
                    return false;
                },
                Order::Greater => {
                    proof {
                        if self.wf() {
                            K::lemma_transitive(
                                self.entries@[i - 1].0@,
                                self.entries@[i as int].0@,
                                self.entries@[i - 1].0@,
                            );
                            K::lemma_irreflexive(self.entries@[i - 1].0@);
                        }
                    }
                    return false;
                },
            }
            i += 1;
        }
        true
    }

    /// Looks the key up by halving: the place where it stands, or where it
    /// would have to stand, and whether it is there.
    pub fn locate(&self, key: &K) -> (r: (usize, bool))
        requires
            self.wf(),
        ensures
            r.0 <= self.entries@.len(),
            r.1 == self.has(key@),
            r.1 ==> r.0 < self.entries@.len() && self.entries@[r.0 as int].0@ == key@
                && self.slot(key@) == r.0,
            forall|i: int| 0 <= i < r.0 ==> K::before(self.entries@[i].0@, key@),
            !r.1 ==> forall|i: int|
                r.0 <= i < self.entries@.len() ==> K::before(key@, self.entries@[i].0@),
    {
        let mut lo: usize = 0;
        let mut hi: usize = self.entries.len();
        while lo < hi
            invariant
                self.wf(),
                lo <= hi <= self.entries@.len(),
                forall|i: int| 0 <= i < lo ==> K::before(self.entries@[i].0@, key@),
                forall|i: int|
                    hi <= i < self.entries@.len() ==> K::before(key@, self.entries@[i].0@),
            decreases hi - lo,
        {
            let mid: usize = lo + (hi - lo) / 2;
            match key.compare(&self.entries[mid].0) {
                Order::Equal => {
                    proof {
                        self.lemma_slot(mid as int);
                    }
                    return (mid, true);
                },
                Order::Less => {
                    proof {
                        assert forall|i: int| mid <= i < self.entries@.len() implies K::before(
                            key@,
                            self.entries@[i].0@,
                        ) by {
                            if i > mid {
                                K::lemma_transitive(
                                    key@,
                                    self.entries@[mid as int].0@,
                                    self.entries@[i].0@,
                                );
                            }
                        }
                    }
                    hi = mid;
                },
                Order::Greater => {
                    proof {
                        assert forall|i: int| 0 <= i < mid + 1 implies K::before(
                            self.entries@[i].0@,
                            key@,
                        ) by {
                            if i < mid {
                                K::lemma_transitive(
                                    self.entries@[i].0@,
                                    self.entries@[mid as int].0@,
                                    key@,
                                );
                            }
                        }
                    }
                    lo = mid + 1;
                },
            }
        }
        proof {
            if self.has(key@) {
                assert(self.entries@[self.slot(key@)].0@ == key@);
                K::lemma_irreflexive(key@);
            }
        }
        (lo, false)
    }

    /// Puts a key that the table lacks at the place that `locate` gave for
    /// it.
    pub fn insert_at(&mut self, at: usize, key: K, value: V)
        requires
            old(self).wf(),
            at <= old(self).entries@.len(),
            forall|i: int| 0 <= i < at ==> K::before(old(self).entries@[i].0@, key@),
            forall|i: int|
                at <= i < old(self).entries@.len() ==> K::before(key@, old(self).entries@[i].0@),
        ensures
            final(self).wf(),
            final(self).entries@ == old(self).entries@.insert(at as int, (key, value)),
            forall|k: K::V|
                #![trigger final(self).has(k)]
                #![trigger old(self).has(k)]
                final(self).has(k) <==> old(self).has(k) || k == key@,
            forall|k: K::V|
                #![trigger final(self).value(k)]
                #![trigger old(self).value(k)]
                old(self).has(k) ==> final(self).value(k) == old(self).value(k),
            final(self).value(key@) == value,
            final(self).slot(key@) == at,
            !old(self).has(key@),
    {
        let ghost before = *self;
        self.entries.insert(at, (key, value));
        proof {
            let after = *self;
            assert forall|i: int, j: int| 0 <= i < j < after.entries@.len() implies K::before(
                after.entries@[i].0@,
                after.entries@[j].0@,
            ) by {
                if i < at && j == at {
                } else if i == at {
                    assert(after.entries@[j] == before.entries@[j - 1]);
                } else if j < at {
                } else if i < at {
                    assert(after.entries@[j] == before.entries@[j - 1]);
                } else {
                    assert(after.entries@[i] == before.entries@[i - 1]);
                    assert(after.entries@[j] == before.entries@[j - 1]);
                }
            }
            after.lemma_slot(at as int);
            if before.has(key@) {
                K::lemma_irreflexive(key@);
            }
            assert forall|k: K::V| before.has(k) implies after.has(k) && after.value(k)
                == before.value(k) by {
                let i = before.slot(k);
                before.lemma_slot(i);
                if i < at {
                    assert(after.entries@[i] == before.entries@[i]);
                    after.lemma_slot(i);
                } else {
                    assert(after.entries@[i + 1] == before.entries@[i]);
                    after.lemma_slot(i + 1);
                }
            }
            assert forall|k: K::V| after.has(k) implies before.has(k) || k == key@ by {
                let i = after.slot(k);
                if i < at {
                    assert(after.entries@[i] == before.entries@[i]);
                } else if i > at {
                    assert(after.entries@[i] == before.entries@[i - 1]);
                }
            }
        }
    }

    /// Makes sure that the table holds the key, with `blank` as its value
    /// where it was not there, and gives its place.
    pub fn slot_for(&mut self, key: &K, blank: V) -> (at: usize)
        requires
            old(self).wf(),
        ensures
            final(self).wf(),
            at < final(self).entries@.len(),
            final(self).entries@[at as int].0@ == key@,
            final(self).slot(key@) == at,
            forall|k: K::V|
                #![trigger final(self).has(k)]
                #![trigger old(self).has(k)]
                final(self).has(k) <==> old(self).has(k) || k == key@,
            forall|k: K::V|
                #![trigger final(self).value(k)]
                #![trigger old(self).value(k)]
                old(self).has(k) ==> final(self).value(k) == old(self).value(k),
            !old(self).has(key@) ==> final(self).value(key@) == blank,
    {
        let (at, found) = self.locate(key);
        if !found {
            self.insert_at(at, key.duplicate(), blank);
        }
        proof {
            self.lemma_slot(at as int);
        }
        at
    }

    /// Keeps `value` for the key, in place of what was kept for it before.
    pub fn put(&mut self, key: K, value: V)
        requires
            old(self).wf(),
        ensures
            final(self).wf(),
            forall|k: K::V|
                #![trigger final(self).has(k)]
                #![trigger old(self).has(k)]
                final(self).has(k) <==> old(self).has(k) || k == key@,
            forall|k: K::V|
                #![trigger final(self).value(k)]
                #![trigger old(self).value(k)]
                old(self).has(k) && k != key@ ==> final(self).value(k) == old(self).value(k),
            final(self).value(key@) == value,
    {
        let (at, found) = self.locate(&key);
        if found {
            let ghost before = *self;
            self.entries[at].1 = value;
            proof {
                Self::lemma_update(before, *self, at as int);
            }
        } else {
            self.insert_at(at, key, value);
        }
    }

    /// A change of the value at one place leaves the keys and the other
    /// values as they were.
    pub proof fn lemma_update(before: Self, after: Self, at: int)
        requires
            before.wf(),
            0 <= at < before.entries@.len(),
            after.entries@.len() == before.entries@.len(),
            forall|i: int|
                0 <= i < before.entries@.len() ==> after.entries@[i].0@ == before.entries@[i].0@,
            forall|i: int|
                0 <= i < before.entries@.len() && i != at ==> after.entries@[i].1
                    == before.entries@[i].1,
        ensures
            after.wf(),
            forall|k: K::V|
                #![trigger after.has(k)]
                #![trigger before.has(k)]
                after.has(k) <==> before.has(k),
            forall|k: K::V|
                #![trigger after.value(k)]
                #![trigger before.value(k)]
                before.has(k) && k != before.entries@[at].0@ ==> after.value(k) == before.value(
                    k,
                ),
            after.value(before.entries@[at].0@) == after.entries@[at].1,
            after.slot(before.entries@[at].0@) == at,
    {
        assert forall|i: int, j: int| 0 <= i < j < after.entries@.len() implies K::before(
            after.entries@[i].0@,
            after.entries@[j].0@,
        ) by {
            assert(K::before(before.entries@[i].0@, before.entries@[j].0@));
        }
        after.lemma_slot(at);
        assert forall|k: K::V| after.has(k) <==> before.has(k) by {
            if after.has(k) {
                let i = after.slot(k);
                assert(before.entries@[i].0@ == k);
            }
            if before.has(k) {
                let i = before.slot(k);
                assert(after.entries@[i].0@ == k);
            }
        }
        assert forall|k: K::V| before.has(k) && k != before.entries@[at].0@ implies after.value(k)
            == before.value(k) by {
            let i = before.slot(k);
            before.lemma_slot(i);
            assert(after.entries@[i].0@ == k);
            after.lemma_slot(i);
        }
    }

    /// The place of the key, where the table holds it.
    pub fn find(&self, key: &K) -> (r: Option<usize>)
        requires
            self.wf(),
        ensures
            r is Some <==> self.has(key@),
            r is Some ==> r->0 < self.entries@.len() && self.entries@[r->0 as int].0@ == key@
                && self.slot(key@) == r->0,
    {
        let (at, found) = self.locate(key);
        if found {
            Some(at)
        } else {
            None
        }
    }

    /// Whether the table holds the key.
    pub fn contains(&self, key: &K) -> (r: bool)
        requires
            self.wf(),
        ensures
            r == self.has(key@),
    {
        self.locate(key).1
    }
}

impl<K: Key> Table<K, ()> {
    /// Adds the key to the set.
    pub fn add(&mut self, key: &K)
        requires
            old(self).wf(),
        ensures
            final(self).wf(),
            forall|k: K::V|
                #![trigger final(self).has(k)]
                #![trigger old(self).has(k)]
                final(self).has(k) <==> old(self).has(k) || k == key@,
    {
        let (at, found) = self.locate(key);
        if !found {
            self.insert_at(at, key.duplicate(), ());
        }
    }

    /// Adds all the keys of `other` to the set.
    pub fn add_all(&mut self, other: &Table<K, ()>)
        requires
            old(self).wf(),
            other.wf(),
        ensures
            final(self).wf(),
            forall|k: K::V|
                #![trigger final(self).has(k)]
                #![trigger old(self).has(k)]
                #![trigger other.has(k)]
                final(self).has(k) <==> old(self).has(k) || other.has(k),
    {
        let mut i: usize = 0;
        while i < other.entries.len()
            invariant
                i <= other.entries@.len(),
                self.wf(),
                other.wf(),
                forall|k: K::V|
                    self.has(k) <==> old(self).has(k) || exists|j: int|
                        0 <= j < i && other.entries@[j].0@ == k,
            decreases other.entries@.len() - i,
        {
            self.add(&other.entries[i].0);
            i += 1;
        }
    }

    /// A copy of the set.
    pub fn duplicate(&self) -> (r: Self)
        requires
            self.wf(),
        ensures
            r.wf(),
            r.keys() == self.keys(),
            forall|k: K::V|
                #![trigger r.has(k)]
                #![trigger self.has(k)]
                r.has(k) <==> self.has(k),
    {
        let mut r: Table<K, ()> = Table::new();
        let mut i: usize = 0;
        while i < self.entries.len()
            invariant
                i <= self.entries@.len(),
                self.wf(),
                r.entries@.len() == i,
                forall|j: int| 0 <= j < i ==> r.entries@[j].0@ == self.entries@[j].0@,
            decreases self.entries@.len() - i,
        {
            r.entries.push((self.entries[i].0.duplicate(), ()));
            i += 1;
        }
        assert(r.keys() =~= self.keys());
        assert forall|k: K::V| r.has(k) <==> self.has(k) by {
            if r.has(k) {
                let j = r.slot(k);
                assert(self.entries@[j].0@ == k);
            }
            if self.has(k) {
                let j = self.slot(k);
                assert(r.entries@[j].0@ == k);
            }
        }
        r
    }
}

} // verus!

//! A finite map from `(u64, u64)` keys to values, stored as an association list with
//! distinct keys. Contracts speak of the derived `Map<(u64, u64), V>` view; the entry
//! sequence itself is also exposed so that callers can walk every entry.

use vstd::prelude::*;

verus! {

/// The map described by an association list; a later entry overrides an
/// earlier one with the same key.
pub open spec fn pair_assoc_map<V>(s: Seq<((u64, u64), V)>) -> Map<(u64, u64), V>
    decreases s.len(),
{
    if s.len() == 0 {
        Map::empty()
    } else {
        pair_assoc_map(s.drop_last()).insert(s.last().0, s.last().1)
    }
}

/// No key occurs twice in the list.
pub open spec fn pair_distinct_keys<V>(s: Seq<((u64, u64), V)>) -> bool {
    forall|i: int, j: int| 0 <= i < j < s.len() ==> (#[trigger] s[i]).0 != (#[trigger] s[j]).0
}

/// A key is in the map exactly when some entry carries it.
pub proof fn lemma_pair_assoc_contains<V>(s: Seq<((u64, u64), V)>, k: (u64, u64))
    ensures
        pair_assoc_map(s).contains_key(k) <==> exists|i: int| 0 <= i < s.len() && (#[trigger] s[i]).0 == k,
    decreases s.len(),
{
    if s.len() > 0 {
        lemma_pair_assoc_contains(s.drop_last(), k);
        if s.last().0 == k {
            assert(s[s.len() - 1].0 == k);
        } else {
            if exists|i: int| 0 <= i < s.len() && (#[trigger] s[i]).0 == k {
                let i = choose|i: int| 0 <= i < s.len() && (#[trigger] s[i]).0 == k;
                assert(s.drop_last()[i].0 == k);
            }
            if exists|i: int| 0 <= i < s.drop_last().len() && (#[trigger] s.drop_last()[i]).0 == k {
                let i = choose|i: int| 0 <= i < s.drop_last().len()
                    && (#[trigger] s.drop_last()[i]).0 == k;
                assert(s[i].0 == k);
            }
        }
    }
}

/// With distinct keys, the entry that carries a key gives its value.
pub proof fn lemma_pair_assoc_value<V>(s: Seq<((u64, u64), V)>, i: int)
    requires
        pair_distinct_keys(s),
        0 <= i < s.len(),
    ensures
        pair_assoc_map(s).contains_key(s[i].0),
        pair_assoc_map(s)[s[i].0] == s[i].1,
    decreases s.len(),
{
    if i == s.len() - 1 {
    } else {
        assert(s.drop_last()[i] == s[i]);
        lemma_pair_assoc_value(s.drop_last(), i);
        assert(s.last().0 != s[i].0);
    }
}

/// Appending an entry with a fresh key inserts it into the map.
pub proof fn lemma_pair_assoc_push<V>(s: Seq<((u64, u64), V)>, k: (u64, u64), v: V)
    ensures
        pair_assoc_map(s.push((k, v))) == pair_assoc_map(s).insert(k, v),
{
    assert(s.push((k, v)).drop_last() =~= s);
    assert(s.push((k, v)).last() == (k, v));
}

/// Overwriting the entry that carries a key updates the map at that key.
pub proof fn lemma_pair_assoc_update<V>(s: Seq<((u64, u64), V)>, i: int, v: V)
    requires
        pair_distinct_keys(s),
        0 <= i < s.len(),
    ensures
        pair_assoc_map(s.update(i, (s[i].0, v))) =~= pair_assoc_map(s).insert(s[i].0, v),
        pair_distinct_keys(s.update(i, (s[i].0, v))),
    decreases s.len(),
{
    let k = s[i].0;
    let t = s.update(i, (k, v));
    assert forall|a: int, b: int| 0 <= a < b < t.len() implies (#[trigger] t[a]).0
        != (#[trigger] t[b]).0 by {
        assert(t[a].0 == s[a].0);
        assert(t[b].0 == s[b].0);
    }
    if i == s.len() - 1 {
        assert(t.drop_last() =~= s.drop_last());
        assert(t.last() == (k, v));
        assert(pair_assoc_map(t) == pair_assoc_map(s.drop_last()).insert(k, v));
        assert(pair_assoc_map(s).insert(k, v) =~= pair_assoc_map(s.drop_last()).insert(k, v));
    } else {
        assert(t.drop_last() =~= s.drop_last().update(i, (k, v)));
        assert(s.drop_last()[i] == s[i]);
        lemma_pair_assoc_update(s.drop_last(), i, v);
        assert(t.last() == s.last());
        assert(s.last().0 != k);
        assert(pair_assoc_map(t) == pair_assoc_map(s.drop_last()).insert(k, v).insert(s.last().0, s.last().1));
        assert(pair_assoc_map(t) =~= pair_assoc_map(s).insert(k, v));
    }
}

/// Removing the entry that carries a key removes that key from the map.
pub proof fn lemma_pair_assoc_remove<V>(s: Seq<((u64, u64), V)>, i: int)
    requires
        pair_distinct_keys(s),
        0 <= i < s.len(),
    ensures
        pair_assoc_map(s.remove(i)) =~= pair_assoc_map(s).remove(s[i].0),
        pair_distinct_keys(s.remove(i)),
    decreases s.len(),
{
    let k = s[i].0;
    let t = s.remove(i);
    assert forall|a: int, b: int| 0 <= a < b < t.len() implies (#[trigger] t[a]).0
        != (#[trigger] t[b]).0 by {
        let a0 = if a < i { a } else { a + 1 };
        let b0 = if b < i { b } else { b + 1 };
        assert(t[a] == s[a0]);
        assert(t[b] == s[b0]);
    }
    if i == s.len() - 1 {
        assert(t =~= s.drop_last());
        lemma_pair_assoc_contains(s.drop_last(), k);
        assert forall|j: int| 0 <= j < s.drop_last().len() implies (#[trigger] s.drop_last()[j]).0
            != k by {
            assert(s[j] == s.drop_last()[j]);
        }
        assert(!pair_assoc_map(s.drop_last()).contains_key(k));
        assert(pair_assoc_map(s) == pair_assoc_map(s.drop_last()).insert(k, s[i].1));
        assert(pair_assoc_map(s).remove(k) =~= pair_assoc_map(s.drop_last()));
    } else {
        assert(t.drop_last() =~= s.drop_last().remove(i));
        assert(s.drop_last()[i] == s[i]);
        lemma_pair_assoc_remove(s.drop_last(), i);
        assert(t.last() == s.last());
        assert(s.last().0 != k);
        assert(pair_assoc_map(t) == pair_assoc_map(s.drop_last()).remove(k).insert(s.last().0, s.last().1));
        assert(pair_assoc_map(t) =~= pair_assoc_map(s).remove(k));
    }
}

/// A finite map from `(u64, u64)` keys to `V` values.
pub struct PairTable<V> {
    entries: Vec<((u64, u64), V)>,
}

impl<V> View for PairTable<V> {
    type V = Seq<((u64, u64), V)>;

    closed spec fn view(&self) -> Seq<((u64, u64), V)> {
        self.entries@
    }
}

impl<V> PairTable<V> {
    /// The map this table holds.
    pub open spec fn m(&self) -> Map<(u64, u64), V> {
        pair_assoc_map(self@)
    }

    /// Every key occurs at most once.
    pub open spec fn wf(&self) -> bool {
        pair_distinct_keys(self@)
    }

    pub fn new() -> (r: PairTable<V>)
        ensures
            r@ == Seq::<((u64, u64), V)>::empty(),
            r.m() == Map::<(u64, u64), V>::empty(),
            r.wf(),
    {
        PairTable { entries: Vec::new() }
    }

    pub fn len(&self) -> (r: usize)
        ensures
            r == self@.len(),
    {
        self.entries.len()
    }

    /// The entry at a position, for walking the whole table.
    pub fn at(&self, i: usize) -> (r: &((u64, u64), V))
        requires
            i < self@.len(),
        ensures
            *r == self@[i as int],
            self.wf() ==> self.m().contains_key(r.0) && self.m()[r.0] == r.1,
    {
        proof {
            if self.wf() {
                lemma_pair_assoc_value(self@, i as int);
            }
        }
        &self.entries[i]
    }

    /// The position of the entry that carries a key, if any.
    fn position(&self, k: (u64, u64)) -> (r: Option<usize>)
        ensures
            match r {
                Some(i) => i < self@.len() && self@[i as int].0 == k,
                None => forall|j: int| 0 <= j < self@.len() ==> (#[trigger] self@[j]).0 != k,
            },
    {
        let n = self.entries.len();
        let mut i: usize = 0;
        while i < n
            invariant
                n == self@.len(),
                i <= n,
                forall|j: int| 0 <= j < i ==> (#[trigger] self@[j]).0 != k,
            decreases n - i,
        {
            if self.entries[i].0.0 == k.0 && self.entries[i].0.1 == k.1 {
                return Some(i);
            }
            i = i + 1;
        }
        None
    }

    pub fn contains_key(&self, k: (u64, u64)) -> (r: bool)
        ensures
            r == self.m().contains_key(k),
    {
        proof {
            lemma_pair_assoc_contains(self@, k);
        }
        self.position(k).is_some()
    }

    pub fn get(&self, k: (u64, u64)) -> (r: Option<&V>)
        requires
            self.wf(),
        ensures
            match r {
                Some(v) => self.m().contains_key(k) && *v == self.m()[k],
                None => !self.m().contains_key(k),
            },
    {
        proof {
            lemma_pair_assoc_contains(self@, k);
        }
        match self.position(k) {
            Some(i) => {
                proof {
                    lemma_pair_assoc_value(self@, i as int);
                }
                Some(&self.entries[i].1)
            },
            None => None,
        }
    }

    /// Entries and map agree: every key sits in exactly one entry.
    pub proof fn lemma_entries_cover(&self)
        requires
            self.wf(),
        ensures
            forall|k: (u64, u64)| #[trigger] self.m().contains_key(k) ==> exists|i: int|
                0 <= i < self@.len() && self@[i] == (k, self.m()[k]),
            forall|i: int| 0 <= i < self@.len() ==> self.m().contains_key((#[trigger] self@[i]).0)
                && self.m()[self@[i].0] == self@[i].1,
    {
        assert forall|i: int| 0 <= i < self@.len() implies self.m().contains_key(
            (#[trigger] self@[i]).0,
        ) && self.m()[self@[i].0] == self@[i].1 by {
            lemma_pair_assoc_value(self@, i);
        }
        assert forall|k: (u64, u64)| #[trigger] self.m().contains_key(k) implies exists|i: int|
            0 <= i < self@.len() && self@[i] == (k, self.m()[k]) by {
            lemma_pair_assoc_contains(self@, k);
            let i = choose|i: int| 0 <= i < self@.len() && (#[trigger] self@[i]).0 == k;
            lemma_pair_assoc_value(self@, i);
            assert(self@[i] == (k, self.m()[k]));
        }
    }

    /// Insert, overwriting any previous value under the key.
    pub fn insert(&mut self, k: (u64, u64), v: V)
        requires
            old(self).wf(),
        ensures
            final(self).wf(),
            final(self).m() == old(self).m().insert(k, v),
            final(self)@.len() == old(self)@.len() + (if old(self).m().contains_key(k) {
                0int
            } else {
                1int
            }),
    {
        proof {
            lemma_pair_assoc_contains(self@, k);
        }
        match self.position(k) {
            Some(i) => {
                proof {
                    lemma_pair_assoc_update(self@, i as int, v);
                }
                self.entries[i] = (k, v);
            },
            None => {
                proof {
                    lemma_pair_assoc_push(self@, k, v);
                    assert(pair_distinct_keys(self@.push((k, v)))) by {
                        let t = self@.push((k, v));
                        assert forall|a: int, b: int| 0 <= a < b < t.len() implies
                            (#[trigger] t[a]).0 != (#[trigger] t[b]).0 by {
                            if b < t.len() - 1 {
                                assert(t[a] == self@[a]);
                                assert(t[b] == self@[b]);
                            } else {
                                assert(t[a] == self@[a]);
                            }
                        }
                    }
                }
                self.entries.push((k, v));
            },
        }
        proof {
            assert(final(self).m() =~= old(self).m().insert(k, v));
        }
    }

    /// Remove the entry under a key and hand its value out.
    pub fn take(&mut self, k: (u64, u64)) -> (r: Option<V>)
        requires
            old(self).wf(),
        ensures
            final(self).wf(),
            match r {
                Some(v) => old(self).m().contains_key(k) && v == old(self).m()[k]
                    && final(self).m() == old(self).m().remove(k),
                None => !old(self).m().contains_key(k) && *final(self) == *old(self),
            },
    {
        proof {
            lemma_pair_assoc_contains(self@, k);
        }
        match self.position(k) {
            Some(i) => {
                proof {
                    lemma_pair_assoc_remove(self@, i as int);
                    lemma_pair_assoc_value(self@, i as int);
                }
                let e = self.entries.remove(i);
                proof {
                    assert(final(self).m() =~= old(self).m().remove(k));
                }
                Some(e.1)
            },
            None => None,
        }
    }

    /// Remove the entry under a key, if any.
    pub fn remove(&mut self, k: (u64, u64))
        requires
            old(self).wf(),
        ensures
            final(self).wf(),
            final(self).m() == old(self).m().remove(k),
            final(self)@.len() == old(self)@.len() - (if old(self).m().contains_key(k) {
                1int
            } else {
                0int
            }),
    {
        proof {
            lemma_pair_assoc_contains(self@, k);
        }
        match self.position(k) {
            Some(i) => {
                proof {
                    lemma_pair_assoc_remove(self@, i as int);
                }
                self.entries.remove(i);
            },
            None => {
                proof {
                    assert(final(self).m() =~= old(self).m().remove(k));
                }
            },
        }
        proof {
            assert(final(self).m() =~= old(self).m().remove(k));
        }
    }
}

} // verus!

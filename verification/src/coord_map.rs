//! A small association map from grid coordinates to plain values, viewed in
//! specifications as a `Map<(i32, i32), V>`. It backs the tile layout, the
//! unit registry, tile tints and predecessor maps.

use vstd::prelude::*;

verus! {

/// A map from grid coordinate to `V`, stored as a vector of entries with
/// pairwise distinct keys.
pub struct CoordMap<V> {
    entries: Vec<((i32, i32), V)>,
}

impl<V> View for CoordMap<V> {
    type V = Map<(i32, i32), V>;

    closed spec fn view(&self) -> Map<(i32, i32), V> {
        seq_as_map(self.entries@)
    }
}

/// The map that a sequence of entries denotes; a later entry overrides an
/// earlier one with the same key.
pub open spec fn seq_as_map<V>(s: Seq<((i32, i32), V)>) -> Map<(i32, i32), V>
    decreases s.len(),
{
    if s.len() == 0 {
        Map::empty()
    } else {
        seq_as_map(s.drop_last()).insert(s.last().0, s.last().1)
    }
}

/// `seq_as_map` maps exactly the stored keys, and with distinct keys it maps
/// each key to its stored value.
proof fn lemma_seq_as_map_index<V>(s: Seq<((i32, i32), V)>, i: int)
    requires
        0 <= i < s.len(),
        forall|j: int, k: int| 0 <= j < k < s.len() ==> (#[trigger] s[j]).0 != (#[trigger] s[k]).0,
    ensures
        seq_as_map(s).dom().contains(s[i].0),
        seq_as_map(s)[s[i].0] == s[i].1,
    decreases s.len(),
{
    if i == s.len() - 1 {
    } else {
        lemma_seq_as_map_index(s.drop_last(), i);
        assert(s.drop_last()[i] == s[i]);
        assert(s[i].0 != s.last().0);
    }
}

/// Every key of `seq_as_map` is the key of some entry.
proof fn lemma_seq_as_map_dom<V>(s: Seq<((i32, i32), V)>, k: (i32, i32))
    requires
        seq_as_map(s).dom().contains(k),
    ensures
        exists|i: int| 0 <= i < s.len() && (#[trigger] s[i]).0 == k,
    decreases s.len(),
{
    if s.len() > 0 && s.last().0 != k {
        lemma_seq_as_map_dom(s.drop_last(), k);
        let i = choose|i: int| 0 <= i < s.drop_last().len() && (#[trigger] s.drop_last()[i]).0 == k;
        assert(s[i].0 == k);
    }
}

impl<V> CoordMap<V> {
    /// The keys are pairwise distinct; every `CoordMap` that this module
    /// hands out satisfies it, and every operation preserves it.
    pub closed spec fn wf(&self) -> bool {
        forall|j: int, k: int|
            0 <= j < k < self.entries@.len() ==> (#[trigger] self.entries@[j]).0 != (
            #[trigger] self.entries@[k]).0
    }

    /// An empty map.
    pub fn new() -> (r: Self)
        ensures
            r.wf(),
            r@ == Map::<(i32, i32), V>::empty(),
    {
        CoordMap { entries: Vec::new() }
    }

    /// The position of the entry holding `key`, if any.
    fn position_of(&self, key: (i32, i32)) -> (r: Option<usize>)
        requires
            self.wf(),
        ensures
            match r {
                Some(i) => i < self.entries@.len() && self.entries@[i as int].0 == key
                    && self@.dom().contains(key) && self@[key] == self.entries@[i as int].1,
                None => !self@.dom().contains(key),
            },
    {
        let n = self.entries.len();
        let mut i: usize = 0;
        while i < n
            invariant
                n == self.entries@.len(),
                i <= n,
                self.wf(),
                forall|j: int| 0 <= j < i ==> (#[trigger] self.entries@[j]).0 != key,
            decreases n - i,
        {
            if self.entries[i].0.0 == key.0 && self.entries[i].0.1 == key.1 {
                proof {
                    lemma_seq_as_map_index(self.entries@, i as int);
                }
                return Some(i);
            }
            i = i + 1;
        }
        proof {
            if self@.dom().contains(key) {
                lemma_seq_as_map_dom(self.entries@, key);
            }
        }
        None
    }

    /// Whether `key` has a value.
    pub fn contains_key(&self, key: (i32, i32)) -> (r: bool)
        requires
            self.wf(),
        ensures
            r == self@.dom().contains(key),
    {
        self.position_of(key).is_some()
    }

    /// The value stored under `key`, if any.
    pub fn get(&self, key: (i32, i32)) -> (r: Option<&V>)
        requires
            self.wf(),
        ensures
            match r {
                Some(v) => self@.dom().contains(key) && *v == self@[key],
                None => !self@.dom().contains(key),
            },
    {
        match self.position_of(key) {
            Some(i) => Some(&self.entries[i].1),
            None => None,
        }
    }

    /// Stores `value` under `key`, replacing any earlier value.
    pub fn insert(&mut self, key: (i32, i32), value: V)
        requires
            old(self).wf(),
        ensures
            final(self).wf(),
            final(self)@ == old(self)@.insert(key, value),
    {
        let pos = self.position_of(key);
        match pos {
            Some(i) => {
                let ghost s0 = self.entries@;
                self.entries[i] = (key, value);
                proof {
                    lemma_update_as_insert(s0, i as int, key, value);
                }
            },
            None => {
                self.entries.push((key, value));
                proof {
                    assert(self.entries@.drop_last() == old(self).entries@);
                    assert forall|j: int| 0 <= j < old(self).entries@.len() implies (
                    #[trigger] old(self).entries@[j]).0 != key by {
                        if old(self).entries@[j].0 == key {
                            lemma_seq_as_map_index(old(self).entries@, j);
                        }
                    }
                }
            },
        }
    }

    /// Removes the value stored under `key`, if any.
    pub fn remove(&mut self, key: (i32, i32))
        requires
            old(self).wf(),
        ensures
            final(self).wf(),
            final(self)@ == old(self)@.remove(key),
    {
        let pos = self.position_of(key);
        match pos {
            Some(i) => {
                let ghost s0 = self.entries@;
                self.entries.remove(i);
                proof {
                    lemma_remove_entry(s0, i as int);
                    assert(self@ =~= old(self)@.remove(key));
                }
            },
            None => {
                proof {
                    assert(self@ =~= old(self)@.remove(key));
                }
            },
        }
    }

    /// Drops every entry.
    pub fn clear(&mut self)
        ensures
            final(self).wf(),
            final(self)@ == Map::<(i32, i32), V>::empty(),
    {
        self.entries.clear();
    }

    /// The keys, in storage order; they are pairwise distinct and are exactly
    /// the domain of the map.
    pub fn keys(&self) -> (r: Vec<(i32, i32)>)
        requires
            self.wf(),
        ensures
            r@.no_duplicates(),
            forall|i: int| 0 <= i < r@.len() ==> self@.dom().contains(#[trigger] r@[i]),
            forall|k: (i32, i32)| self@.dom().contains(k) ==> r@.contains(k),
    {
        let n = self.entries.len();
        let mut r: Vec<(i32, i32)> = Vec::new();
        let mut i: usize = 0;
        while i < n
            invariant
                n == self.entries@.len(),
                i <= n,
                self.wf(),
                r@.len() == i,
                forall|j: int| 0 <= j < i ==> r@[j] == (#[trigger] self.entries@[j]).0,
            decreases n - i,
        {
            r.push(self.entries[i].0);
            i = i + 1;
        }
        proof {
            assert forall|a: int, b: int| 0 <= a < b < r@.len() implies r@[a] != r@[b] by {
                assert(r@[a] == self.entries@[a].0);
                assert(r@[b] == self.entries@[b].0);
            }
            assert forall|j: int| 0 <= j < r@.len() implies self@.dom().contains(
                #[trigger] r@[j],
            ) by {
                lemma_seq_as_map_index(self.entries@, j);
            }
            assert forall|k: (i32, i32)| self@.dom().contains(k) implies r@.contains(k) by {
                lemma_seq_as_map_dom(self.entries@, k);
                let j = choose|j: int|
                    0 <= j < self.entries@.len() && (#[trigger] self.entries@[j]).0 == k;
                assert(r@[j] == k);
            }
        }
        r
    }
}

/// Updating the entry at `i` (whose key is `key`) denotes the same map as
/// inserting `(key, value)`.
proof fn lemma_update_as_insert<V>(s: Seq<((i32, i32), V)>, i: int, key: (i32, i32), value: V)
    requires
        0 <= i < s.len(),
        s[i].0 == key,
        forall|j: int, k: int| 0 <= j < k < s.len() ==> (#[trigger] s[j]).0 != (#[trigger] s[k]).0,
    ensures
        seq_as_map(s.update(i, (key, value))) == seq_as_map(s).insert(key, value),
    decreases s.len(),
{
    let t = s.update(i, (key, value));
    if i == s.len() - 1 {
        assert(t.drop_last() =~= s.drop_last());
        assert(seq_as_map(t) =~= seq_as_map(s).insert(key, value));
    } else {
        assert(t.drop_last() =~= s.drop_last().update(i, (key, value)));
        lemma_update_as_insert(s.drop_last(), i, key, value);
        assert(s[i].0 != s.last().0);
        assert(seq_as_map(t) =~= seq_as_map(s).insert(key, value));
    }
}

/// Removing the entry at `i` removes exactly its key from the denoted map,
/// when the keys are distinct.
proof fn lemma_remove_entry<V>(s: Seq<((i32, i32), V)>, i: int)
    requires
        0 <= i < s.len(),
        forall|j: int, k: int| 0 <= j < k < s.len() ==> (#[trigger] s[j]).0 != (#[trigger] s[k]).0,
    ensures
        seq_as_map(s.remove(i)) == seq_as_map(s).remove(s[i].0),
    decreases s.len(),
{
    if i == s.len() - 1 {
        assert(s.remove(i) =~= s.drop_last());
        assert(seq_as_map(s.drop_last()).dom().contains(s[i].0) ==> exists|j: int|
            0 <= j < s.drop_last().len() && (#[trigger] s.drop_last()[j]).0 == s[i].0) by {
            if seq_as_map(s.drop_last()).dom().contains(s[i].0) {
                lemma_seq_as_map_dom(s.drop_last(), s[i].0);
            }
        }
        assert(seq_as_map(s.remove(i)) =~= seq_as_map(s).remove(s[i].0));
    } else {
        assert(s.remove(i).drop_last() =~= s.drop_last().remove(i));
        assert(s.remove(i).last() == s.last());
        lemma_remove_entry(s.drop_last(), i);
        assert(s[i].0 != s.last().0);
        assert(seq_as_map(s.remove(i)) =~= seq_as_map(s).remove(s[i].0));
    }
}

} // verus!

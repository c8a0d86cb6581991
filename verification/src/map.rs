//! The ordered map: a set of pairs that are ordered by their keys.

use vstd::prelude::*;
use crate::change::{replay, ChangeEvent};
use crate::element::{within, Bound, Ranked, Replicate};
use crate::iter::{yields_greatest, yields_least};
use crate::pair::Pair;
use crate::set::{
    after_put, after_remove, put_batch, remove_batch, BTreeSet, Ref, DEFAULT_INNER_SIZE,
};

verus! {

/// An ordered map from ranked keys to values.
pub struct BTreeMap<K: Ranked, V: Replicate> {
    set: BTreeSet<Pair<K, V>>,
}

/// What a traversal of a map hands out, as the pair it stands for.
pub open spec fn entry<K, V>(out: Option<(&K, &V)>) -> Option<Pair<K, V>> {
    match out {
        Some((k, v)) => Some(Pair { key: *k, value: *v }),
        None => None,
    }
}

/// The value of a pair, where there is a pair.
pub open spec fn value_of<K, V>(pair: Option<Pair<K, V>>) -> Option<V> {
    match pair {
        Some(p) => Some(p.value),
        None => None,
    }
}

/// Key and value of a pair, where there is a pair.
pub open spec fn parts_of<K, V>(pair: Option<Pair<K, V>>) -> Option<(K, V)> {
    match pair {
        Some(p) => Some((p.key, p.value)),
        None => None,
    }
}

/// A traversal of a map from both ends.
pub struct Iter<'a, K: Ranked, V: Replicate> {
    inner: crate::iter::Iter<'a, Pair<K, V>>,
}

impl<'a, K: Ranked, V: Replicate> View for Iter<'a, K, V> {
    type V = Map<int, Pair<K, V>>;

    /// The pairs still to come, each under the rank of its key.
    closed spec fn view(&self) -> Map<int, Pair<K, V>> {
        self.inner@
    }
}

impl<'a, K: Ranked, V: Replicate> Iter<'a, K, V> {
    /// Both cursors are at rest in a well-formed map.
    pub closed spec fn wf(&self) -> bool {
        self.inner.wf()
    }

    /// Hands out key and value of the pair of least rank among those still to
    /// come.
    pub fn next(&mut self) -> (out: Option<(&'a K, &'a V)>)
        requires
            old(self).wf(),
        ensures
            final(self).wf(),
            yields_least(old(self)@, entry(out), final(self)@),
    {
        if let Some(entry) = self.inner.next() {
            return Some((&entry.key, &entry.value));
        }
        None
    }

    /// Hands out key and value of the pair of greatest rank among those still
    /// to come.
    pub fn next_back(&mut self) -> (out: Option<(&'a K, &'a V)>)
        requires
            old(self).wf(),
        ensures
            final(self).wf(),
            yields_greatest(old(self)@, entry(out), final(self)@),
    {
        if let Some(entry) = self.inner.next_back() {
            return Some((&entry.key, &entry.value));
        }
        None
    }
}

/// A traversal of a range of a map from both ends.
pub struct Range<'a, K: Ranked, V: Replicate> {
    inner: crate::iter::Range<'a, Pair<K, V>>,
}

impl<'a, K: Ranked, V: Replicate> View for Range<'a, K, V> {
    type V = Map<int, Pair<K, V>>;

    /// The pairs still to come, each under the rank of its key.
    closed spec fn view(&self) -> Map<int, Pair<K, V>> {
        self.inner@
    }
}

impl<'a, K: Ranked, V: Replicate> Range<'a, K, V> {
    /// Both cursors are at rest in a well-formed map.
    pub closed spec fn wf(&self) -> bool {
        self.inner.wf()
    }

    /// Hands out key and value of the pair of least rank among those still to
    /// come.
    pub fn next(&mut self) -> (out: Option<(&'a K, &'a V)>)
        requires
            old(self).wf(),
        ensures
            final(self).wf(),
            yields_least(old(self)@, entry(out), final(self)@),
    {
        if let Some(entry) = self.inner.next() {
            return Some((&entry.key, &entry.value));
        }
        None
    }

    /// Hands out key and value of the pair of greatest rank among those still
    /// to come.
    pub fn next_back(&mut self) -> (out: Option<(&'a K, &'a V)>)
        requires
            old(self).wf(),
        ensures
            final(self).wf(),
            yields_greatest(old(self)@, entry(out), final(self)@),
    {
        if let Some(entry) = self.inner.next_back() {
            return Some((&entry.key, &entry.value));
        }
        None
    }
}

impl<K: Ranked, V: Replicate> View for BTreeMap<K, V> {
    type V = Map<int, Pair<K, V>>;

    /// The pairs, each under the rank of its key.
    closed spec fn view(&self) -> Map<int, Pair<K, V>> {
        self.set@
    }
}

impl<K: Ranked, V: Replicate> BTreeMap<K, V> {
    /// The set of pairs that the map is made of.
    pub closed spec fn as_set(&self) -> BTreeSet<Pair<K, V>> {
        self.set
    }

    /// What holds of the map between its operations: its set of pairs is
    /// well-formed.
    pub open spec fn wf(&self) -> bool {
        self.as_set().wf()
    }

    /// The leaves as a replica files them: each under the rank of its
    /// greatest key.
    pub open spec fn shape(&self) -> Map<int, Seq<Pair<K, V>>> {
        self.as_set().shape()
    }

    /// A map without entries.
    pub fn new() -> (map: Self)
        ensures
            map.wf(),
            map@ == Map::<int, Pair<K, V>>::empty(),
            map.shape() == Map::<int, Seq<Pair<K, V>>>::empty(),
            map.as_set().leaves() == Seq::<Seq<Pair<K, V>>>::empty(),
            map.as_set().keys() == Seq::<int>::empty(),
            map.as_set().capacity() == DEFAULT_INNER_SIZE,
    {
        Self { set: BTreeSet::new() }
    }

    /// Whether the map holds a value under a key that has the rank of `key`.
    pub fn contains_key<Q: Ranked>(&self, key: &Q) -> (found: bool)
        requires
            self.wf(),
        ensures
            found == self@.dom().contains(key.rank()),
    {
        self.set.contains(key)
    }

    /// The pair whose key has the rank of `key`, if the map holds one.
    pub fn get<'a, Q: Ranked>(&'a self, key: &Q) -> (found: Option<Ref<'a, Pair<K, V>>>)
        requires
            self.wf(),
        ensures
            match found {
                Some(r) => self@.dom().contains(key.rank()) && r@ == self@[key.rank()],
                None => !self@.dom().contains(key.rank()),
            },
    {
        self.set.get(key)
    }

    /// Puts `value` under `key`. Returns the value that the map held under a
    /// key of that rank, if it held one.
    pub fn insert(&mut self, key: K, value: V) -> (previous: Option<V>)
        requires
            old(self).wf(),
            old(self)@.len() < usize::MAX,
        ensures
            final(self).wf(),
            final(self).as_set().capacity() == old(self).as_set().capacity(),
            final(self)@ == old(self)@.insert(key.rank(), Pair { key, value }),
            previous == value_of(old(self)@.get(key.rank())),
            final(self).as_set().leaves() == after_put(
                old(self).as_set().leaves(),
                old(self).as_set().capacity(),
                Pair { key, value },
            ),
    {
        let new_entry = Pair { key, value };
        match self.set.put_cdc(new_entry).0 {
            Some(pair) => Some(pair.value),
            None => None,
        }
    }

    /// Puts `value` under `key`. Returns the value that the map held under a
    /// key of that rank, if it held one, and the events that take a replica
    /// from the map as it was to the map as it is.
    pub fn insert_cdc(&mut self, key: K, value: V) -> (res: (
        Option<V>,
        Vec<ChangeEvent<Pair<K, V>>>,
    ))
        requires
            old(self).wf(),
            old(self)@.len() < usize::MAX,
        ensures
            final(self).wf(),
            final(self).as_set().capacity() == old(self).as_set().capacity(),
            final(self)@ == old(self)@.insert(key.rank(), Pair { key, value }),
            res.0 == value_of(old(self)@.get(key.rank())),
            final(self).shape() == replay(old(self).shape(), res.1@),
            final(self).as_set().leaves() == after_put(
                old(self).as_set().leaves(),
                old(self).as_set().capacity(),
                Pair { key, value },
            ),
            put_batch(
                old(self).as_set().leaves(),
                old(self).as_set().capacity(),
                Pair { key, value },
                res.1@,
            ),
    {
        let new_entry = Pair { key, value };
        let (old_value, cdc) = self.set.put_cdc(new_entry);
        match old_value {
            Some(pair) => (Some(pair.value), cdc),
            None => (None, cdc),
        }
    }

    /// Takes the pair whose key has the rank of `key` out of the map, if it
    /// holds one, and returns its key and value.
    pub fn remove<Q: Ranked>(&mut self, key: &Q) -> (removed: Option<(K, V)>)
        requires
            old(self).wf(),
        ensures
            final(self).wf(),
            final(self).as_set().capacity() == old(self).as_set().capacity(),
            final(self)@ == old(self)@.remove(key.rank()),
            removed == parts_of(old(self)@.get(key.rank())),
            final(self).as_set().leaves() == after_remove(
                old(self).as_set().leaves(),
                key.rank(),
            ),
    {
        match self.set.remove(key) {
            Some(pair) => Some((pair.key, pair.value)),
            None => None,
        }
    }

    /// Takes the pair whose key has the rank of `key` out of the map, if it
    /// holds one. Returns its key and value, and the events that take a replica
    /// from the map as it was to the map as it is.
    pub fn remove_cdc<Q: Ranked>(&mut self, key: &Q) -> (res: (
        Option<(K, V)>,
        Vec<ChangeEvent<Pair<K, V>>>,
    ))
        requires
            old(self).wf(),
        ensures
            final(self).wf(),
            final(self).as_set().capacity() == old(self).as_set().capacity(),
            final(self)@ == old(self)@.remove(key.rank()),
            res.0 == parts_of(old(self)@.get(key.rank())),
            final(self).shape() == replay(old(self).shape(), res.1@),
            final(self).as_set().leaves() == after_remove(
                old(self).as_set().leaves(),
                key.rank(),
            ),
            remove_batch(old(self).as_set().leaves(), key.rank(), res.1@),
    {
        let (old_value, cdc) = self.set.remove_cdc(key);
        match old_value {
            Some(pair) => (Some((pair.key, pair.value)), cdc),
            None => (None, cdc),
        }
    }

    /// The number of entries.
    pub fn len(&self) -> (n: usize)
        requires
            self.wf(),
        ensures
            n == self@.len(),
    {
        self.set.len()
    }

    /// A traversal of the map in ascending order of key, open at both ends.
    pub fn iter<'a>(&'a self) -> (iter: Iter<'a, K, V>)
        requires
            self.wf(),
        ensures
            iter.wf(),
            iter@ == self@,
    {
        Iter { inner: self.set.iter() }
    }

    /// A traversal of the entries whose keys rank from `start` to `end`, in
    /// ascending order of key, open at both ends.
    pub fn range<'a, Q: Ranked>(&'a self, start: Bound<&Q>, end: Bound<&Q>) -> (range: Range<
        'a,
        K,
        V,
    >)
        requires
            self.wf(),
        ensures
            range.wf(),
            range@ == self@.restrict(Set::new(|r: int| within(start, end, r))),
    {
        Range { inner: self.set.range(start, end) }
    }

    /// The number of leaves.
    pub fn node_count(&self) -> (n: usize)
        ensures
            n == self.as_set().leaves().len(),
    {
        self.set.node_count()
    }

    /// The key under which leaf `i` is filed.
    pub fn node_key(&self, i: usize) -> (key: &K)
        requires
            i < self.as_set().leaves().len(),
        ensures
            *key == self.as_set().filed()[i as int].key,
            key.rank() == self.as_set().keys()[i as int],
    {
        &self.set.node_key(i).key
    }

    /// The pairs of leaf `i`.
    pub fn node_items(&self, i: usize) -> (items: &Vec<Pair<K, V>>)
        requires
            i < self.as_set().leaves().len(),
        ensures
            items@ == self.as_set().leaves()[i as int],
    {
        self.set.node_items(i)
    }
}

impl<K: Ranked, V: Replicate> Default for BTreeMap<K, V> {
    /// A map without entries.
    fn default() -> (map: Self)
        ensures
            map.wf(),
            map@ == Map::<int, Pair<K, V>>::empty(),
            map.shape() == Map::<int, Seq<Pair<K, V>>>::empty(),
            map.as_set().leaves() == Seq::<Seq<Pair<K, V>>>::empty(),
            map.as_set().capacity() == DEFAULT_INNER_SIZE,
    {
        Self::new()
    }
}

} // verus!

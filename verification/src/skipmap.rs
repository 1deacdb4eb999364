//! An ordered map from keys to values.

use crate::laws::lemma_hop_base;
use crate::laws::lemma_hop_forward;
use crate::laws::lemma_hop_top;
use crate::model::hop;
use crate::model::lane;
use crate::model::lemma_peak_props;
use crate::model::keys_of;
use crate::model::lemma_rank_finds;
use crate::model::lemma_strict_insert;
use crate::model::lemma_strict_keys;
use crate::model::lemma_strict_remove;
use crate::model::lemma_to_map_at;
use crate::model::lemma_to_map_insert;
use crate::model::lemma_to_map_remove;
use crate::model::lemma_to_map_update;
use crate::model::rank;
use crate::model::sorted;
use crate::model::strictly_sorted;
use crate::model::to_map;
use crate::model::towers_after_insert;
use crate::model::towers_after_remove;
use crate::model::well_towered;
use crate::entry::Entry;
use crate::order::lt;
use crate::order::total_order;
use crate::storage::NonEmptyStorage;
use vstd::prelude::*;

verus! {

/// A skip list of entries in ascending order of their keys, with at most `N`
/// levels. No key is held twice.
pub struct SkipMap<K, V, const N: usize> {
    storage: Option<NonEmptyStorage<K, V, N>>,
}

impl<K: Ord, V, const N: usize> View for SkipMap<K, V, N> {
    type V = Map<K, V>;

    /// The value stored under each key.
    closed spec fn view(&self) -> Map<K, V> {
        to_map(self.entries())
    }
}

impl<K: Ord, V, const N: usize> SkipMap<K, V, N> {
    /// The entries in ascending order of their keys.
    pub closed spec fn entries(&self) -> Seq<(K, V)> {
        match self.storage {
            Some(storage) => storage.entries(),
            None => Seq::empty(),
        }
    }

    /// The map is sound: it has room for a level, its keys are totally
    /// ordered and none is held twice, and its storage, where it has one, is
    /// sound.
    pub closed spec fn wf(&self) -> bool {
        &&& N >= 1
        &&& total_order::<K>()
        &&& strictly_sorted(keys_of(self.entries()))
        &&& match self.storage {
            Some(storage) => storage.wf(),
            None => true,
        }
    }

    /// The height of each node's tower, by position.
    pub closed spec fn towers(&self) -> Seq<nat> {
        match self.storage {
            Some(storage) => storage.towers(),
            None => Seq::empty(),
        }
    }

    /// The position that the link of node `k` on level `i` leads to.
    pub closed spec fn link(&self, k: int, i: int) -> Option<int> {
        match self.storage {
            Some(storage) => storage.link(k, i),
            None => None,
        }
    }

    /// The map holds no storage.
    pub closed spec fn vacant(&self) -> bool {
        self.storage is None
    }

    /// A sound map has a tower for each entry, strictly sorted keys, and
    /// towers as a container keeps them; its view is the map that its
    /// entries make, and it holds a storage exactly when it holds an entry.
    pub proof fn lemma_shape(&self)
        requires
            self.wf(),
        ensures
            N >= 1,
            total_order::<K>(),
            self@ == to_map(self.entries()),
            self.towers().len() == self.entries().len(),
            strictly_sorted(keys_of(self.entries())),
            sorted(keys_of(self.entries())),
            keys_of(self.entries()).no_duplicates(),
            self.entries().len() > 0 ==> well_towered(self.towers(), N as nat),
            self.vacant() <==> self.entries().len() == 0,
            self@.dom().finite(),
            self@.len() == self.entries().len(),
    {
        match self.storage {
            Some(storage) => {
                storage.lemma_shape();
            },
            None => {},
        }
        lemma_strict_keys(keys_of(self.entries()));
        crate::model::lemma_to_map_len(self.entries());
    }

    /// In a sound map the link of node `k` on level `i` leads to the next
    /// node whose tower rises above the level, and nowhere where the node's
    /// own tower does not.
    pub proof fn lemma_link(&self, k: int, i: int)
        requires
            self.wf(),
            0 <= k < self.entries().len(),
            0 <= i < N,
        ensures
            self.link(k, i) == hop(self.towers(), k, i),
    {
        self.storage.unwrap().lemma_link(k, i);
    }

    /// An empty map.
    pub fn new() -> (map: Self)
        requires
            N >= 1,
            total_order::<K>(),
        ensures
            map.wf(),
            map@ == Map::<K, V>::empty(),
            map.entries() == Seq::<(K, V)>::empty(),
            map.towers() == Seq::<nat>::empty(),
    {
        let map = SkipMap { storage: None };
        assert(map@ =~= Map::<K, V>::empty());
        map
    }

    /// Whether the map holds no entry.
    pub fn is_empty(&self) -> (empty: bool)
        requires
            self.wf(),
        ensures
            empty == (self@.len() == 0),
            empty == self.vacant(),
    {
        proof {
            self.lemma_shape();
        }
        self.storage.is_none()
    }

    /// The number of live levels: the height of the head's tower, and 0 in
    /// an empty map.
    pub fn levels(&self) -> (levels: usize)
        requires
            self.wf(),
        ensures
            levels <= N,
            levels == (if self.entries().len() == 0 {
                0
            } else {
                self.towers()[0]
            }),
    {
        proof {
            self.lemma_shape();
        }
        match &self.storage {
            Some(storage) => storage.levels(),
            None => 0,
        }
    }

    /// Whether the map holds an entry under `key`.
    pub fn contains(&self, key: &K) -> (found: bool)
        requires
            self.wf(),
        ensures
            found == self@.contains_key(*key),
    {
        self.get(key).is_some()
    }

    /// The value stored under `key`, if there is one.
    pub fn get(&self, key: &K) -> (found: Option<&V>)
        requires
            self.wf(),
        ensures
            found == (if self@.contains_key(*key) {
                Some(&self@[*key])
            } else {
                None
            }),
    {
        proof {
            self.lemma_shape();
            lemma_rank_finds(keys_of(self.entries()), *key);
            let p = rank(keys_of(self.entries()), *key);
            if 0 <= p < self.entries().len() {
                lemma_to_map_at(self.entries(), p);
            }
        }
        match &self.storage {
            Some(storage) => match storage.get(key) {
                Some(entry) => Some(&entry.value),
                None => None,
            },
            None => None,
        }
    }

    /// Stores `value` under `key` and returns the value that was stored
    /// there, if there was one. `word` decides the height of the tower of a
    /// new node.
    pub fn insert_with(&mut self, key: K, value: V, word: u64) -> (previous: Option<V>)
        requires
            old(self).wf(),
        ensures
            final(self).wf(),
            final(self)@ == old(self)@.insert(key, value),
            !final(self).vacant(),
            previous == (if old(self)@.contains_key(key) {
                Some(old(self)@[key])
            } else {
                None
            }),
            final(self).entries() == (if old(self)@.contains_key(key) {
                old(self).entries().update(rank(keys_of(old(self).entries()), key), (key, value))
            } else {
                old(self).entries().insert(rank(keys_of(old(self).entries()), key), (key, value))
            }),
            final(self).towers() == (if old(self)@.contains_key(key) {
                old(self).towers()
            } else {
                towers_after_insert(
                    old(self).towers(),
                    rank(keys_of(old(self).entries()), key),
                    word,
                    N as nat,
                )
            }),
    {
        let ghost before = self.entries();
        let ghost keys = keys_of(before);
        let ghost p = rank(keys, key);
        proof {
            old(self).lemma_shape();
            lemma_rank_finds(keys, key);
            if keys.contains(key) {
                lemma_to_map_at(before, p);
                lemma_to_map_update(before, p, (key, value));
            } else {
                lemma_to_map_insert(before, p, (key, value));
                lemma_strict_insert(keys, key);
            }
        }
        match self.storage.take() {
            Some(storage) => {
                let mut storage = storage;
                let previous = storage.upsert_with(Entry { key, value }, word);
                self.storage = Some(storage);
                match previous {
                    Some(entry) => Some(entry.value),
                    None => None,
                }
            },
            None => {
                let storage = NonEmptyStorage::new(Entry { key, value });
                proof {
                    assert(storage.entries() =~= before.insert(0, (key, value)));
                }
                self.storage = Some(storage);
                None
            },
        }
    }

    /// Stores `value` under `key` and returns the value that was stored
    /// there, if there was one. The height of the tower of a new node is
    /// drawn at random.
    pub fn insert(&mut self, key: K, value: V) -> (previous: Option<V>)
        requires
            old(self).wf(),
        ensures
            final(self).wf(),
            final(self)@ == old(self)@.insert(key, value),
            !final(self).vacant(),
            previous == (if old(self)@.contains_key(key) {
                Some(old(self)@[key])
            } else {
                None
            }),
            final(self).entries() == (if old(self)@.contains_key(key) {
                old(self).entries().update(rank(keys_of(old(self).entries()), key), (key, value))
            } else {
                old(self).entries().insert(rank(keys_of(old(self).entries()), key), (key, value))
            }),
            old(self)@.contains_key(key) ==> final(self).towers() == old(self).towers(),
            !old(self)@.contains_key(key) ==> exists|word: u64|
                final(self).towers() == #[trigger] towers_after_insert(
                    old(self).towers(),
                    rank(keys_of(old(self).entries()), key),
                    word,
                    N as nat,
                ),
    {
        let ghost before = self.entries();
        let ghost keys = keys_of(before);
        let ghost p = rank(keys, key);
        proof {
            old(self).lemma_shape();
            lemma_rank_finds(keys, key);
            if keys.contains(key) {
                lemma_to_map_at(before, p);
                lemma_to_map_update(before, p, (key, value));
            } else {
                lemma_to_map_insert(before, p, (key, value));
                lemma_strict_insert(keys, key);
            }
        }
        match self.storage.take() {
            Some(storage) => {
                let mut storage = storage;
                let previous = storage.upsert(Entry { key, value });
                self.storage = Some(storage);
                match previous {
                    Some(entry) => Some(entry.value),
                    None => None,
                }
            },
            None => {
                let storage = NonEmptyStorage::new(Entry { key, value });
                proof {
                    assert(storage.entries() =~= before.insert(0, (key, value)));
                    assert(storage.towers() == towers_after_insert(
                        old(self).towers(),
                        p,
                        0u64,
                        N as nat,
                    ));
                }
                self.storage = Some(storage);
                None
            },
        }
    }

    /// Takes the entry under `key` out of the map and returns its value;
    /// returns nothing where the map holds no such entry.
    pub fn remove(&mut self, key: &K) -> (removed: Option<V>)
        requires
            old(self).wf(),
        ensures
            final(self).wf(),
            final(self)@ == old(self)@.remove(*key),
            final(self).vacant() <==> final(self)@.len() == 0,
            removed == (if old(self)@.contains_key(*key) {
                Some(old(self)@[*key])
            } else {
                None
            }),
            final(self).entries() == (if old(self)@.contains_key(*key) {
                old(self).entries().remove(rank(keys_of(old(self).entries()), *key))
            } else {
                old(self).entries()
            }),
            final(self).towers() == (if old(self)@.contains_key(*key) {
                towers_after_remove(old(self).towers(), rank(keys_of(old(self).entries()), *key))
            } else {
                old(self).towers()
            }),
    {
        let ghost before = self.entries();
        let ghost keys = keys_of(before);
        let ghost p = rank(keys, *key);
        proof {
            old(self).lemma_shape();
            lemma_rank_finds(keys, *key);
            if keys.contains(*key) {
                lemma_to_map_at(before, p);
                lemma_to_map_remove(before, p);
                lemma_strict_remove(keys, p);
            } else {
                assert(old(self)@.remove(*key) =~= old(self)@);
            }
        }
        match self.storage.take() {
            Some(storage) => {
                let (rest, removed) = storage.remove(key);
                proof {
                    if removed is Some && rest is None {
                        assert(before.remove(p) =~= Seq::<(K, V)>::empty());
                        assert(towers_after_remove(storage.towers(), p) =~= Seq::<nat>::empty());
                    }
                }
                self.storage = rest;
                match removed {
                    Some(entry) => Some(entry.value),
                    None => None,
                }
            },
            None => None,
        }
    }

    /// Along the links of every level the keys ascend.
    pub proof fn lemma_level_ascends(&self, k: int, i: int)
        requires
            self.wf(),
            0 <= k < self.entries().len(),
            0 <= i < N,
            self.link(k, i) is Some,
        ensures
            k < self.link(k, i).unwrap() < self.entries().len(),
            lt(
                keys_of(self.entries())[k],
                keys_of(self.entries())[self.link(k, i).unwrap()],
            ),
    {
        self.lemma_shape();
        self.lemma_link(k, i);
        lemma_hop_forward(self.towers(), k, i);
    }

    /// The number of live levels is the height of the head's tower: it is
    /// between 1 and `N`, no node has a link on a level at or above it, and
    /// where it is above 1 the head has a link on the level just below it.
    pub proof fn lemma_live_levels(&self)
        requires
            self.wf(),
            self.entries().len() > 0,
        ensures
            1 <= self.towers()[0] <= N,
            forall|k: int, i: int|
                0 <= k < self.entries().len() && self.towers()[0] <= i < N
                    ==> #[trigger] self.link(k, i) is None,
            self.towers()[0] > 1 ==> self.link(0, self.towers()[0] - 1) is Some,
    {
        self.lemma_shape();
        lemma_hop_top(self.towers(), N as nat);
        assert forall|k: int, i: int|
            0 <= k < self.entries().len() && self.towers()[0] <= i < N implies #[trigger] self.link(
            k,
            i,
        ) is None by {
            self.lemma_link(k, i);
            assert(hop(self.towers(), k, i) is None);
        }
        if self.towers()[0] > 1 {
            self.lemma_link(0, self.towers()[0] - 1);
        }
    }

    /// On level 0 every node is linked to the one that stands next and the
    /// last to none, so that the links from the head reach each node once.
    pub proof fn lemma_base_level(&self, k: int)
        requires
            self.wf(),
            0 <= k < self.entries().len(),
        ensures
            self.link(k, 0) == (if k + 1 < self.entries().len() {
                Some(k + 1)
            } else {
                None
            }),
    {
        self.lemma_shape();
        self.lemma_link(k, 0);
        lemma_peak_props(self.towers(), 1);
        lemma_hop_base(self.towers(), k);
    }

    /// The entries of the nodes on level `level`, as its links run through
    /// them from the head.
    pub fn level_entries(&self, level: usize) -> (chain: Vec<&Entry<K, V>>)
        requires
            self.wf(),
        ensures
            chain@.len() == lane(self.towers(), level as int).len(),
            forall|a: int|
                0 <= a < chain@.len() ==> (#[trigger] chain@[a])@ == self.entries()[lane(
                    self.towers(),
                    level as int,
                )[a]],
    {
        match &self.storage {
            Some(storage) => storage.level_entries(level),
            None => Vec::new(),
        }
    }
}

impl<K: Ord, V, const N: usize> Default for SkipMap<K, V, N> {
    /// An empty map. It is sound where `new` could have made it.
    fn default() -> (map: Self)
        ensures
            map@ == Map::<K, V>::empty(),
            map.entries() == Seq::<(K, V)>::empty(),
            map.towers() == Seq::<nat>::empty(),
            N >= 1 && total_order::<K>() ==> map.wf(),
    {
        let map = SkipMap { storage: None };
        assert(map@ =~= Map::<K, V>::empty());
        map
    }
}

} // verus!

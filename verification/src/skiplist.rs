//! An ordered bag of values.

use crate::laws::lemma_hop_base;
use crate::laws::lemma_hop_forward;
use crate::laws::lemma_hop_top;
use crate::model::hop;
use crate::model::lane;
use crate::model::lemma_lane_from;
use crate::model::lemma_peak_props;
use crate::model::keys_of;
use crate::model::lemma_rank_finds;
use crate::model::rank;
use crate::model::sorted;
use crate::model::towers_after_insert;
use crate::model::towers_after_remove;
use crate::model::well_towered;
use crate::entry::Entry;
use crate::order::lemma_trichotomy;
use crate::order::lt;
use crate::order::total_order;
use crate::storage::NonEmptyStorage;
use vstd::prelude::*;

verus! {

/// A skip list of values in ascending order, with at most `N` levels. A value
/// may be held several times; among equal values the one that came last
/// stands first.
pub struct SkipList<T, const N: usize> {
    storage: Option<NonEmptyStorage<T, (), N>>,
}

impl<T: Ord, const N: usize> View for SkipList<T, N> {
    type V = Seq<T>;

    /// The values in ascending order.
    closed spec fn view(&self) -> Seq<T> {
        match self.storage {
            Some(storage) => keys_of(storage.entries()),
            None => Seq::empty(),
        }
    }
}

impl<T: Ord, const N: usize> SkipList<T, N> {
    /// The list is sound: it has room for a level, its values are totally
    /// ordered, and its storage, where it has one, is sound.
    pub closed spec fn wf(&self) -> bool {
        &&& N >= 1
        &&& total_order::<T>()
        &&& match self.storage {
            Some(storage) => storage.wf(),
            None => true,
        }
    }

    /// The height of each node's tower, by position.
    pub closed spec fn towers(&self) -> Seq<nat> {
        match self.storage {
            Some(storage) => storage.towers(),
            None => Seq::empty(),
        }
    }

    /// The position that the link of node `k` on level `i` leads to.
    pub closed spec fn link(&self, k: int, i: int) -> Option<int> {
        match self.storage {
            Some(storage) => storage.link(k, i),
            None => None,
        }
    }

    /// The list holds no storage.
    pub closed spec fn vacant(&self) -> bool {
        self.storage is None
    }

    /// A sound list has a tower for each value, sorted values, and towers as
    /// a container keeps them; it holds a storage exactly when it holds a
    /// value.
    pub proof fn lemma_shape(&self)
        requires
            self.wf(),
        ensures
            N >= 1,
            total_order::<T>(),
            self.towers().len() == self@.len(),
            sorted(self@),
            self@.len() > 0 ==> well_towered(self.towers(), N as nat),
            self.vacant() <==> self@.len() == 0,
    {
        match self.storage {
            Some(storage) => {
                storage.lemma_shape();
            },
            None => {},
        }
    }

    /// In a sound list the link of node `k` on level `i` leads to the next
    /// node whose tower rises above the level, and nowhere where the node's
    /// own tower does not.
    pub proof fn lemma_link(&self, k: int, i: int)
        requires
            self.wf(),
            0 <= k < self@.len(),
            0 <= i < N,
        ensures
            self.link(k, i) == hop(self.towers(), k, i),
    {
        self.storage.unwrap().lemma_link(k, i);
    }

    /// An empty list.
    pub fn new() -> (list: Self)
        requires
            N >= 1,
            total_order::<T>(),
        ensures
            list.wf(),
            list@ == Seq::<T>::empty(),
            list.towers() == Seq::<nat>::empty(),
    {
        SkipList { storage: None }
    }

    /// Whether the list holds no value.
    pub fn is_empty(&self) -> (empty: bool)
        requires
            self.wf(),
        ensures
            empty == (self@.len() == 0),
            empty == self.vacant(),
    {
        proof {
            self.lemma_shape();
        }
        self.storage.is_none()
    }

    /// The number of live levels: the height of the head's tower, and 0 in
    /// an empty list.
    pub fn levels(&self) -> (levels: usize)
        requires
            self.wf(),
        ensures
            levels <= N,
            levels == (if self@.len() == 0 {
                0
            } else {
                self.towers()[0]
            }),
    {
        proof {
            self.lemma_shape();
        }
        match &self.storage {
            Some(storage) => storage.levels(),
            None => 0,
        }
    }

    /// Whether the list holds `value`.
    pub fn contains(&self, value: &T) -> (found: bool)
        requires
            self.wf(),
        ensures
            found == self@.contains(*value),
            found == (self@.to_multiset().count(*value) > 0),
    {
        proof {
            self.lemma_shape();
            lemma_rank_finds(self@, *value);
            vstd::seq_lib::to_multiset_contains(self@, *value);
        }
        match &self.storage {
            Some(storage) => storage.get(value).is_some(),
            None => false,
        }
    }

    /// Puts `value` into the list, in front of the values that are not
    /// before it. `word` decides the height of the new node's tower.
    pub fn insert_with(&mut self, value: T, word: u64)
        requires
            old(self).wf(),
        ensures
            final(self).wf(),
            final(self)@ == old(self)@.insert(rank(old(self)@, value), value),
            final(self)@.to_multiset() == old(self)@.to_multiset().insert(value),
            !final(self).vacant(),
            final(self).towers() == towers_after_insert(
                old(self).towers(),
                rank(old(self)@, value),
                word,
                N as nat,
            ),
    {
        proof {
            old(self).lemma_shape();
            lemma_rank_finds(old(self)@, value);
            vstd::seq_lib::to_multiset_insert(old(self)@, rank(old(self)@, value), value);
        }
        match self.storage.take() {
            Some(storage) => {
                let mut storage = storage;
                let ghost before = storage.entries();
                storage.insert_with(Entry { key: value, value: () }, word);
                proof {
                    let p = rank(keys_of(before), value);
                    assert(keys_of(storage.entries()) =~= keys_of(before).insert(p, value));
                }
                self.storage = Some(storage);
            },
            None => {
                let storage = NonEmptyStorage::new(Entry { key: value, value: () });
                proof {
                    assert(keys_of(storage.entries()) =~= Seq::<T>::empty().insert(0, value));
                }
                self.storage = Some(storage);
            },
        }
    }

    /// Puts `value` into the list, in front of the values that are not
    /// before it. The height of the new node's tower is drawn at random.
    pub fn insert(&mut self, value: T)
        requires
            old(self).wf(),
        ensures
            final(self).wf(),
            final(self)@ == old(self)@.insert(rank(old(self)@, value), value),
            final(self)@.to_multiset() == old(self)@.to_multiset().insert(value),
            !final(self).vacant(),
            exists|word: u64|
                final(self).towers() == #[trigger] towers_after_insert(
                    old(self).towers(),
                    rank(old(self)@, value),
                    word,
                    N as nat,
                ),
    {
        proof {
            old(self).lemma_shape();
            lemma_rank_finds(old(self)@, value);
            vstd::seq_lib::to_multiset_insert(old(self)@, rank(old(self)@, value), value);
        }
        match self.storage.take() {
            Some(storage) => {
                let mut storage = storage;
                let ghost before = storage.entries();
                storage.insert(Entry { key: value, value: () });
                proof {
                    let p = rank(keys_of(before), value);
                    assert(keys_of(storage.entries()) =~= keys_of(before).insert(p, value));
                }
                self.storage = Some(storage);
            },
            None => {
                let storage = NonEmptyStorage::new(Entry { key: value, value: () });
                proof {
                    assert(keys_of(storage.entries()) =~= Seq::<T>::empty().insert(0, value));
                    assert(storage.towers() == towers_after_insert(
                        old(self).towers(),
                        rank(old(self)@, value),
                        0u64,
                        N as nat,
                    ));
                }
                self.storage = Some(storage);
            },
        }
    }

    /// Takes one `value` out of the list, the first of them, and returns it;
    /// returns nothing where the list does not hold it.
    pub fn remove(&mut self, value: &T) -> (removed: Option<T>)
        requires
            old(self).wf(),
        ensures
            final(self).wf(),
            removed == (if old(self)@.contains(*value) {
                Some(*value)
            } else {
                None
            }),
            final(self)@ == (if old(self)@.contains(*value) {
                old(self)@.remove(rank(old(self)@, *value))
            } else {
                old(self)@
            }),
            final(self)@.to_multiset() == old(self)@.to_multiset().remove(*value),
            final(self).vacant() <==> final(self)@.len() == 0,
            final(self).towers() == (if old(self)@.contains(*value) {
                towers_after_remove(old(self).towers(), rank(old(self)@, *value))
            } else {
                old(self).towers()
            }),
    {
        proof {
            old(self).lemma_shape();
            lemma_rank_finds(old(self)@, *value);
            vstd::seq_lib::to_multiset_contains(old(self)@, *value);
            if old(self)@.contains(*value) {
                vstd::seq_lib::to_multiset_remove(old(self)@, rank(old(self)@, *value));
            } else {
                assert(old(self)@.to_multiset().remove(*value) =~= old(self)@.to_multiset());
            }
        }
        match self.storage.take() {
            Some(storage) => {
                let ghost before = storage.entries();
                let (rest, removed) = storage.remove(value);
                proof {
                    let p = rank(keys_of(before), *value);
                    if removed is Some {
                        if rest is Some {
                            assert(keys_of(rest.unwrap().entries()) =~= keys_of(before).remove(p));
                        } else {
                            assert(keys_of(before).remove(p) =~= Seq::<T>::empty());
                            assert(towers_after_remove(storage.towers(), p) =~= Seq::<nat>::empty());
                        }
                    }
                }
                self.storage = rest;
                match removed {
                    Some(entry) => Some(entry.key),
                    None => None,
                }
            },
            None => None,
        }
    }

    /// Along the links of every level the values never descend, and they
    /// ascend where the list holds no value twice.
    pub proof fn lemma_level_ascends(&self, k: int, i: int)
        requires
            self.wf(),
            0 <= k < self@.len(),
            0 <= i < N,
            self.link(k, i) is Some,
        ensures
            k < self.link(k, i).unwrap() < self@.len(),
            !lt(self@[self.link(k, i).unwrap()], self@[k]),
            self@.no_duplicates() ==> lt(self@[k], self@[self.link(k, i).unwrap()]),
    {
        self.lemma_shape();
        self.lemma_link(k, i);
        lemma_hop_forward(self.towers(), k, i);
        let j = self.link(k, i).unwrap();
        assert(!lt(self@[j], self@[k]));
        lemma_trichotomy(self@[k], self@[j]);
    }

    /// The number of live levels is the height of the head's tower: it is
    /// between 1 and `N`, no node has a link on a level at or above it, and
    /// where it is above 1 the head has a link on the level just below it.
    pub proof fn lemma_live_levels(&self)
        requires
            self.wf(),
            self@.len() > 0,
        ensures
            1 <= self.towers()[0] <= N,
            forall|k: int, i: int|
                0 <= k < self@.len() && self.towers()[0] <= i < N ==> #[trigger] self.link(k, i)
                    is None,
            self.towers()[0] > 1 ==> self.link(0, self.towers()[0] - 1) is Some,
    {
        self.lemma_shape();
        lemma_hop_top(self.towers(), N as nat);
        assert forall|k: int, i: int|
            0 <= k < self@.len() && self.towers()[0] <= i < N implies #[trigger] self.link(k, i)
            is None by {
            self.lemma_link(k, i);
            assert(hop(self.towers(), k, i) is None);
        }
        if self.towers()[0] > 1 {
            self.lemma_link(0, self.towers()[0] - 1);
        }
    }

    /// On level 0 every node is linked to the one that stands next and the
    /// last to none, so that the links from the head reach each node once.
    pub proof fn lemma_base_level(&self, k: int)
        requires
            self.wf(),
            0 <= k < self@.len(),
        ensures
            self.link(k, 0) == (if k + 1 < self@.len() {
                Some(k + 1)
            } else {
                None
            }),
    {
        self.lemma_shape();
        self.lemma_link(k, 0);
        lemma_peak_props(self.towers(), 1);
        lemma_hop_base(self.towers(), k);
    }

    /// The values of the nodes on level `level`, as its links run through
    /// them from the head.
    pub fn level_values(&self, level: usize) -> (chain: Vec<&T>)
        requires
            self.wf(),
        ensures
            chain@.len() == lane(self.towers(), level as int).len(),
            forall|a: int|
                0 <= a < chain@.len() ==> *(#[trigger] chain@[a]) == self@[lane(
                    self.towers(),
                    level as int,
                )[a]],
    {
        let mut chain: Vec<&T> = Vec::new();
        match &self.storage {
            Some(storage) => {
                let entries = storage.level_entries(level);
                let ghost places = lane(self.towers(), level as int);
                proof {
                    self.lemma_shape();
                    if places.len() > 0 {
                        lemma_peak_props(self.towers(), 1);
                        lemma_lane_from(self.towers(), 0, level as int);
                    }
                }
                let mut at: usize = 0;
                while at < entries.len()
                    invariant
                        at <= entries@.len(),
                        chain@.len() == at,
                        entries@.len() == places.len(),
                        storage.entries().len() == self@.len(),
                        self@ == keys_of(storage.entries()),
                        forall|a: int|
                            0 <= a < places.len() ==> 0 <= (#[trigger] places[a]) < self@.len(),
                        forall|a: int|
                            0 <= a < entries@.len() ==> (#[trigger] entries@[a])@
                                == storage.entries()[places[a]],
                        forall|a: int|
                            0 <= a < at ==> *(#[trigger] chain@[a]) == self@[places[a]],
                    decreases entries@.len() - at,
                {
                    let entry: &Entry<T, ()> = entries[at];
                    assert(entries@[at as int]@ == storage.entries()[places[at as int]]);
                    chain.push(&entry.key);
                    at = at + 1;
                }
            },
            None => {},
        }
        chain
    }
}

impl<T: Ord, const N: usize> Default for SkipList<T, N> {
    /// An empty list. It is sound where `new` could have made it.
    fn default() -> (list: Self)
        ensures
            list@ == Seq::<T>::empty(),
            list.towers() == Seq::<nat>::empty(),
            N >= 1 && total_order::<T>() ==> list.wf(),
    {
        SkipList { storage: None }
    }
}

} // verus!

//! What holds of the containers over several steps, stated over their views.

use crate::model::capped;
use crate::model::crest;
use crate::model::hop;
use crate::model::least;
use crate::model::lemma_climb_bounds;
use crate::model::lemma_towers_after_insert;
use crate::model::lemma_crest_ignores_head;
use crate::model::lemma_first_not_before;
use crate::model::lemma_peak_props;
use crate::model::lemma_rank_finds;
use crate::model::lemma_rank_splits;
use crate::model::lemma_succ_is;
use crate::model::lemma_succ_props;
use crate::model::rank;
use crate::model::sorted;
use crate::model::succ;
use crate::model::tower_height;
use crate::model::towers_after_insert;
use crate::model::towers_after_remove;
use crate::model::well_towered;
use crate::order::lemma_trichotomy;
use crate::order::lt;
use crate::order::total_order;
use vstd::prelude::*;

verus! {

/// A value that goes in and then out again leaves the values and the towers
/// as they were: it goes in at its rank, is found there, and is the one
/// that goes out.
pub proof fn lemma_insert_then_remove<K: Ord>(
    keys: Seq<K>,
    towers: Seq<nat>,
    key: K,
    word: u64,
    n: nat,
)
    requires
        total_order::<K>(),
        sorted(keys),
        keys.len() == towers.len(),
        keys.len() > 0 ==> well_towered(towers, n),
    ensures
        ({
            let p = rank(keys, key);
            let keys1 = keys.insert(p, key);
            let towers1 = towers_after_insert(towers, p, word, n);
            &&& keys1.contains(key)
            &&& rank(keys1, key) == p
            &&& keys1[p] == key
            &&& keys1.remove(p) == keys
            &&& towers_after_remove(towers1, p) == towers
        }),
{
    let p = rank(keys, key);
    let keys1 = keys.insert(p, key);
    let towers1 = towers_after_insert(towers, p, word, n);
    lemma_rank_splits(keys, key);
    assert(keys1[p] == key);
    assert forall|k: int| 0 <= k < p implies lt(#[trigger] keys1[k], key) by {
        assert(keys1[k] == keys[k]);
    }
    lemma_trichotomy(key, key);
    lemma_first_not_before(keys1, key, 0, p);
    assert(keys1.remove(p) =~= keys);
    if towers.len() == 0 {
        assert(towers_after_remove(towers1, p) =~= towers);
    } else {
        let top = towers[0];
        let rest = towers1.remove(p);
        if p == 0 {
            assert(rest =~= towers.update(0, 1));
            lemma_crest_ignores_head(towers, 1);
        } else {
            let height = tower_height(word, top, n);
            if height > top {
                assert(rest =~= towers.update(0, height));
                lemma_crest_ignores_head(towers, height);
            } else {
                assert(rest =~= towers);
            }
        }
        assert(crest(rest) == top);
        assert(rest.update(0, top) =~= towers);
    }
}

/// Of a value that the bag holds once, the first removal leaves none: a
/// second removal finds nothing.
pub proof fn lemma_remove_single<K: Ord>(keys: Seq<K>, key: K)
    requires
        total_order::<K>(),
        sorted(keys),
        keys.to_multiset().count(key) == 1,
    ensures
        keys.contains(key),
        !keys.remove(rank(keys, key)).contains(key),
{
    let p = rank(keys, key);
    vstd::seq_lib::to_multiset_contains(keys, key);
    lemma_rank_finds(keys, key);
    vstd::seq_lib::to_multiset_remove(keys, p);
    vstd::seq_lib::to_multiset_contains(keys.remove(p), key);
}

/// A value stored under a key where another was stored takes its place: the
/// second store finds the first value, and a lookup then finds the second.
pub proof fn lemma_store_twice<K, V>(map: Map<K, V>, key: K, first: V, second: V)
    ensures
        map.insert(key, first).contains_key(key),
        map.insert(key, first)[key] == first,
        map.insert(key, first).insert(key, second).contains_key(key),
        map.insert(key, first).insert(key, second)[key] == second,
{
}

/// A key that was stored and then taken out is not in the map, so that
/// taking it out once more finds nothing; the other keys are as they were.
pub proof fn lemma_store_then_remove<K, V>(map: Map<K, V>, key: K, value: V)
    ensures
        map.insert(key, value)[key] == value,
        !map.insert(key, value).remove(key).contains_key(key),
        map.insert(key, value).remove(key) == map.remove(key),
        !map.remove(key).contains_key(key),
        map.remove(key).remove(key) == map.remove(key),
{
    assert(map.insert(key, value).remove(key) =~= map.remove(key));
    assert(map.remove(key).remove(key) =~= map.remove(key));
}

/// A link leads forward, from a node whose tower rises above the level to
/// the next such node.
pub proof fn lemma_hop_forward(towers: Seq<nat>, k: int, i: int)
    requires
        0 <= k < towers.len(),
        hop(towers, k, i) is Some,
    ensures
        k < hop(towers, k, i).unwrap() < towers.len(),
        towers[k] > i,
        towers[hop(towers, k, i).unwrap()] > i,
        forall|m: int| k < m < hop(towers, k, i).unwrap() ==> (#[trigger] towers[m]) <= i,
{
    lemma_succ_props(towers, k, i);
}

/// On level 0 each node is linked to the one that stands next, and the last
/// to none: the links run through every node once.
pub proof fn lemma_hop_base(towers: Seq<nat>, k: int)
    requires
        0 <= k < towers.len(),
        forall|m: int| 0 <= m < towers.len() ==> 1 <= #[trigger] towers[m],
    ensures
        hop(towers, k, 0) == (if k + 1 < towers.len() {
            Some(k + 1)
        } else {
            None
        }),
{
    if k + 1 < towers.len() {
        assert(towers[k + 1] >= 1);
    }
    assert(towers[k] >= 1);
}

/// The head's tower counts the live levels: on a level at or above it no
/// node has a link, and where it is above 1 the head has a link on the
/// level just below it.
pub proof fn lemma_hop_top(towers: Seq<nat>, n: nat)
    requires
        well_towered(towers, n),
    ensures
        1 <= towers[0] <= n,
        forall|k: int, i: int|
            0 <= k < towers.len() && towers[0] <= i ==> #[trigger] hop(towers, k, i) is None,
        towers[0] > 1 ==> hop(towers, 0, towers[0] - 1) is Some,
{
    let top = towers[0];
    lemma_peak_props(towers, 1);
    assert(towers[0] >= 1);
    if top > 1 {
        let k = choose|k: int| 1 <= k < towers.len() && #[trigger] towers[k] == top;
        lemma_succ_props(towers, 0, top - 1);
        if succ(towers, 0, top - 1) >= towers.len() {
            assert(towers[k] <= top - 1);
        }
    }
}

/// A link that leads to position `j`, moved by one position.
pub open spec fn moved(link: Option<int>) -> Option<int> {
    match link {
        Some(j) => Some(j + 1),
        None => None,
    }
}

/// Where a node goes in at the front, it takes over the links of the former
/// head above level 0 and is linked to it on level 0; the former head keeps
/// its link on level 0 alone, and every other node its links.
pub proof fn lemma_hop_new_head(towers: Seq<nat>, word: u64, n: nat, k: int, i: int)
    requires
        well_towered(towers, n),
        0 <= k < towers.len(),
        0 <= i,
    ensures
        ({
            let towers1 = towers_after_insert(towers, 0, word, n);
            &&& towers1[0] == towers[0]
            &&& hop(towers1, 0, 0) == Some(1int)
            &&& i >= 1 ==> hop(towers1, 0, i) == moved(hop(towers, 0, i))
            &&& i >= 1 ==> hop(towers1, 1, i) is None
            &&& hop(towers1, 1, 0) == moved(hop(towers, 0, 0))
            &&& k >= 1 ==> hop(towers1, k + 1, i) == moved(hop(towers, k, i))
        }),
{
    let towers1 = towers_after_insert(towers, 0, word, n);
    lemma_peak_props(towers, 1);
    assert(towers1[1] == 1);
    assert forall|m: int| 2 <= m < towers1.len() implies (#[trigger] towers1[m]) == towers[m
        - 1] by {}
    // the links of the nodes behind the front
    lemma_succ_props(towers, k, i);
    let j = succ(towers, k, i);
    assert forall|m: int| k + 1 < m < j + 1 implies (#[trigger] towers1[m]) <= i by {
        assert(towers[m - 1] <= i);
    }
    if j < towers.len() {
        assert(towers1[j + 1] == towers[j]);
    }
    lemma_succ_is(towers1, k + 1, i, j + 1);
    // the links of the new head
    lemma_succ_props(towers, 0, i);
    let j0 = succ(towers, 0, i);
    if i >= 1 {
        assert forall|m: int| 0 < m < j0 + 1 implies (#[trigger] towers1[m]) <= i by {
            if m >= 2 {
                assert(towers[m - 1] <= i);
            }
        }
        if j0 < towers.len() {
            assert(towers1[j0 + 1] == towers[j0]);
        }
        lemma_succ_is(towers1, 0, i, j0 + 1);
    }
    lemma_succ_is(towers1, 0, 0, 1);
}

/// A tower drawn for a new node has at least one level, at most one more
/// than the live levels, and no more than the container has room for; so
/// the live levels grow by at most one and never beyond that room.
pub proof fn lemma_levels_bounded(towers: Seq<nat>, p: int, word: u64, n: nat)
    requires
        well_towered(towers, n),
        0 <= p <= towers.len(),
    ensures
        1 <= tower_height(word, towers[0], n) <= n,
        tower_height(word, towers[0], n) <= towers[0] + 1,
        towers[0] <= towers_after_insert(towers, p, word, n)[0] <= towers[0] + 1,
        towers_after_insert(towers, p, word, n)[0] <= n,
        capped(towers_after_insert(towers, p, word, n), n),
{
    lemma_towers_after_insert(towers, p, word, n);
    lemma_climb_bounds(word, 1, least(towers[0] + 1, n));
    lemma_peak_props(towers, 1);
}

} // verus!

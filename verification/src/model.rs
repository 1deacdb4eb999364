//! The model of a skip list: its keys in order, and for each node the height
//! of its tower, that is the number of levels on which it is linked.

use crate::order::lemma_le_lt;
use crate::order::lemma_trichotomy;
use crate::order::lt;
use crate::order::total_order;
use vstd::prelude::*;

verus! {

/// The keys of a sequence of entries.
pub open spec fn keys_of<K, V>(entries: Seq<(K, V)>) -> Seq<K> {
    Seq::new(entries.len(), |k: int| entries[k].0)
}

/// No key comes before one that stands earlier.
pub open spec fn sorted<K: Ord>(keys: Seq<K>) -> bool {
    forall|a: int, b: int| 0 <= a < b < keys.len() ==> !lt(#[trigger] keys[b], #[trigger] keys[a])
}

/// Every key comes before those that stand later.
pub open spec fn strictly_sorted<K: Ord>(keys: Seq<K>) -> bool {
    forall|a: int, b: int| 0 <= a < b < keys.len() ==> lt(#[trigger] keys[a], #[trigger] keys[b])
}

/// The first position at or after `from` whose key is not before `key`.
pub open spec fn first_not_before<K: Ord>(keys: Seq<K>, key: K, from: int) -> int
    decreases keys.len() - from,
{
    if 0 <= from < keys.len() && lt(keys[from], key) {
        first_not_before(keys, key, from + 1)
    } else {
        from
    }
}

/// Where `key` belongs among `keys`: the first position whose key is not
/// before it, or the length where every key is before it.
pub open spec fn rank<K: Ord>(keys: Seq<K>, key: K) -> int {
    first_not_before(keys, key, 0)
}

/// The position that `first_not_before` finds is the one before which every
/// key is before `key`, and whose own key is not.
pub proof fn lemma_first_not_before<K: Ord>(keys: Seq<K>, key: K, from: int, p: int)
    requires
        0 <= from <= p <= keys.len(),
        forall|k: int| from <= k < p ==> lt(#[trigger] keys[k], key),
        p < keys.len() ==> !lt(keys[p], key),
    ensures
        first_not_before(keys, key, from) == p,
    decreases p - from,
{
    if from < p {
        assert(lt(keys[from], key));
        lemma_first_not_before(keys, key, from + 1, p);
    }
}

/// What `first_not_before` finds, read the other way.
pub proof fn lemma_first_not_before_props<K: Ord>(keys: Seq<K>, key: K, from: int)
    requires
        0 <= from <= keys.len(),
    ensures
        from <= first_not_before(keys, key, from) <= keys.len(),
        forall|k: int| from <= k < first_not_before(keys, key, from) ==> lt(#[trigger] keys[k], key),
        first_not_before(keys, key, from) < keys.len() ==> !lt(
            keys[first_not_before(keys, key, from)],
            key,
        ),
    decreases keys.len() - from,
{
    if from < keys.len() && lt(keys[from], key) {
        lemma_first_not_before_props(keys, key, from + 1);
    }
}

/// Among sorted keys, `key` occurs exactly when it stands at its rank.
pub proof fn lemma_rank_finds<K: Ord>(keys: Seq<K>, key: K)
    requires
        total_order::<K>(),
        sorted(keys),
    ensures
        0 <= rank(keys, key) <= keys.len(),
        keys.contains(key) <==> (rank(keys, key) < keys.len() && keys[rank(keys, key)] == key),
{
    let p = rank(keys, key);
    lemma_first_not_before_props(keys, key, 0);
    if keys.contains(key) {
        let m = choose|m: int| 0 <= m < keys.len() && keys[m] == key;
        lemma_trichotomy(keys[m], key);
        if m < p {
            assert(lt(keys[m], key));
        }
        if p < m {
            assert(!lt(keys[m], keys[p]));
        }
        lemma_trichotomy(keys[p], key);
    }
    if p < keys.len() && keys[p] == key {
        assert(keys.contains(key));
    }
}

/// Among sorted keys, the keys before a rank are before the key, and those
/// from the rank on are not.
pub proof fn lemma_rank_splits<K: Ord>(keys: Seq<K>, key: K)
    requires
        total_order::<K>(),
        sorted(keys),
    ensures
        0 <= rank(keys, key) <= keys.len(),
        forall|k: int| 0 <= k < rank(keys, key) ==> lt(#[trigger] keys[k], key),
        forall|k: int| rank(keys, key) <= k < keys.len() ==> !lt(#[trigger] keys[k], key),
{
    let p = rank(keys, key);
    lemma_first_not_before_props(keys, key, 0);
    assert forall|k: int| p <= k < keys.len() implies !lt(#[trigger] keys[k], key) by {
        if p < k {
            assert(!lt(keys[k], keys[p]));
            if lt(keys[k], key) {
                lemma_le_lt(keys[p], keys[k], key);
            }
        }
    }
}

/// The first position after `k` whose tower rises above level `i`, or the
/// length where there is none: the node that a link on level `i` leads to.
pub open spec fn succ(towers: Seq<nat>, k: int, i: int) -> int
    decreases towers.len() - k,
{
    if k + 1 >= towers.len() {
        towers.len() as int
    } else if k + 1 >= 0 && towers[k + 1] > i {
        k + 1
    } else {
        succ(towers, k + 1, i)
    }
}

/// What `succ` finds.
pub proof fn lemma_succ_props(towers: Seq<nat>, k: int, i: int)
    requires
        -1 <= k < towers.len(),
    ensures
        k < succ(towers, k, i) <= towers.len(),
        succ(towers, k, i) < towers.len() ==> towers[succ(towers, k, i)] > i,
        forall|m: int| k < m < succ(towers, k, i) ==> (#[trigger] towers[m]) <= i,
    decreases towers.len() - k,
{
    if k + 1 < towers.len() && !(towers[k + 1] > i) {
        lemma_succ_props(towers, k + 1, i);
    }
}

/// `succ` finds `j` where `j` is the first position after `k` that rises
/// above level `i`.
pub proof fn lemma_succ_is(towers: Seq<nat>, k: int, i: int, j: int)
    requires
        -1 <= k < j <= towers.len(),
        j < towers.len() ==> towers[j] > i,
        forall|m: int| k < m < j ==> (#[trigger] towers[m]) <= i,
    ensures
        succ(towers, k, i) == j,
    decreases j - k,
{
    if k + 1 < j {
        assert(towers[k + 1] <= i);
        lemma_succ_is(towers, k + 1, i, j);
    }
}

/// The position that the link of node `k` on level `i` leads to: none where
/// the node's tower ends at or below the level, or no later tower rises above
/// it.
pub open spec fn hop(towers: Seq<nat>, k: int, i: int) -> Option<int> {
    if towers[k] > i && succ(towers, k, i) < towers.len() {
        Some(succ(towers, k, i))
    } else {
        None
    }
}

/// The positions that the links of level `i` run through, from position `k`
/// on.
pub open spec fn lane_from(towers: Seq<nat>, k: int, i: int) -> Seq<int>
    decreases towers.len() - k,
{
    if 0 <= k < towers.len() {
        if k < succ(towers, k, i) <= towers.len() {
            seq![k] + lane_from(towers, succ(towers, k, i), i)
        } else {
            seq![k]
        }
    } else {
        Seq::empty()
    }
}

/// The positions of the nodes on level `i`, as its links run through them
/// from the head: none on a level that is not live.
pub open spec fn lane(towers: Seq<nat>, i: int) -> Seq<int> {
    if towers.len() > 0 && towers[0] > i {
        lane_from(towers, 0, i)
    } else {
        Seq::empty()
    }
}

/// The positions on a lane ascend, and each has a tower that rises above
/// the level.
pub proof fn lemma_lane_from(towers: Seq<nat>, k: int, i: int)
    requires
        0 <= k <= towers.len(),
        k < towers.len() ==> towers[k] > i,
    ensures
        forall|a: int|
            0 <= a < lane_from(towers, k, i).len() ==> k <= (#[trigger] lane_from(towers, k, i)[a])
                < towers.len() && towers[lane_from(towers, k, i)[a]] > i,
        forall|a: int, b: int|
            0 <= a < b < lane_from(towers, k, i).len() ==> (#[trigger] lane_from(towers, k, i)[a])
                < #[trigger] lane_from(towers, k, i)[b],
    decreases towers.len() - k,
{
    if k < towers.len() {
        lemma_succ_props(towers, k, i);
        let j = succ(towers, k, i);
        lemma_lane_from(towers, j, i);
        let rest = lane_from(towers, j, i);
        let all = lane_from(towers, k, i);
        assert(all =~= seq![k] + rest);
        assert forall|a: int| 0 <= a < all.len() implies k <= (#[trigger] all[a]) < towers.len()
            && towers[all[a]] > i by {
            if a > 0 {
                assert(all[a] == rest[a - 1]);
            }
        }
        assert forall|a: int, b: int| 0 <= a < b < all.len() implies (#[trigger] all[a])
            < #[trigger] all[b] by {
            assert(all[b] == rest[b - 1]);
            if a > 0 {
                assert(all[a] == rest[a - 1]);
            }
        }
    }
}

/// The greatest tower from position `from` on, and 1 where there is none.
pub open spec fn peak(towers: Seq<nat>, from: int) -> nat
    decreases towers.len() - from,
{
    if from < 0 || from >= towers.len() {
        1
    } else if towers[from] > peak(towers, from + 1) {
        towers[from]
    } else {
        peak(towers, from + 1)
    }
}

/// The number of live levels that towers ask for: the greatest tower behind
/// the head, and 1 where there is none.
pub open spec fn crest(towers: Seq<nat>) -> nat {
    peak(towers, 1)
}

/// `peak` bounds every tower from `from` on, and is 1 or one of them.
pub proof fn lemma_peak_props(towers: Seq<nat>, from: int)
    requires
        0 <= from,
    ensures
        peak(towers, from) >= 1,
        forall|k: int| from <= k < towers.len() ==> (#[trigger] towers[k]) <= peak(towers, from),
        peak(towers, from) == 1 || exists|k: int|
            from <= k < towers.len() && #[trigger] towers[k] == peak(towers, from),
    decreases towers.len() - from,
{
    if from < towers.len() {
        lemma_peak_props(towers, from + 1);
        let rest = peak(towers, from + 1);
        if towers[from] > rest {
            assert(towers[from] == peak(towers, from));
        } else if rest != 1 {
            let k = choose|k: int| from + 1 <= k < towers.len() && #[trigger] towers[k] == rest;
            assert(towers[k] == peak(towers, from));
        }
    }
}

/// `peak` is `top` where `top` bounds every tower from `from` on and is 1 or
/// one of them.
pub proof fn lemma_peak_is(towers: Seq<nat>, from: int, top: nat)
    requires
        0 <= from,
        top >= 1,
        forall|k: int| from <= k < towers.len() ==> (#[trigger] towers[k]) <= top,
        top == 1 || exists|k: int| from <= k < towers.len() && #[trigger] towers[k] == top,
    ensures
        peak(towers, from) == top,
{
    lemma_peak_props(towers, from);
    if top != 1 {
        let k = choose|k: int| from <= k < towers.len() && #[trigger] towers[k] == top;
        assert(towers[k] <= peak(towers, from));
    }
    if peak(towers, from) != 1 {
        let k = choose|k: int|
            from <= k < towers.len() && #[trigger] towers[k] == peak(towers, from);
        assert(towers[k] <= top);
    }
}

/// `crest` does not look at the head's tower.
pub proof fn lemma_crest_ignores_head(towers: Seq<nat>, h: nat)
    requires
        towers.len() >= 1,
    ensures
        crest(towers.update(0, h)) == crest(towers),
{
    lemma_peak_props(towers, 1);
    let top = peak(towers, 1);
    let changed = towers.update(0, h);
    assert forall|k: int| 1 <= k < changed.len() implies (#[trigger] changed[k]) <= top by {
        assert(towers[k] <= top);
    }
    if top != 1 {
        let k = choose|k: int| 1 <= k < towers.len() && #[trigger] towers[k] == top;
        assert(changed[k] == top);
    }
    lemma_peak_is(changed, 1, top);
}

/// Towers within bounds: at least one, each at least 1 and no higher than
/// the head's, and the head's no higher than `n`.
pub open spec fn capped(towers: Seq<nat>, n: nat) -> bool {
    &&& towers.len() >= 1
    &&& towers[0] <= n
    &&& forall|k: int| 0 <= k < towers.len() ==> 1 <= #[trigger] towers[k] <= towers[0]
}

/// Towers as a container keeps them: within bounds, and the head's exactly
/// as high as `crest` asks for.
pub open spec fn well_towered(towers: Seq<nat>, n: nat) -> bool {
    &&& capped(towers, n)
    &&& towers[0] == crest(towers)
}

/// Bit `i` of `word`; a bit that the word does not have is not set.
pub open spec fn bit(word: u64, i: nat) -> bool {
    i < 64 && word & (1u64 << (i as u64)) != 0
}

/// Whether bit `level` of `word` is set.
pub fn bit_set(word: u64, level: usize) -> (r: bool)
    ensures
        r == bit(word, level as nat),
{
    level < 64 && word & (1u64 << (level as u64)) != 0
}

/// The first level at or above `i` and below `cap` whose bit in `word` is not
/// set, or `cap` where all are set.
pub open spec fn climb(word: u64, i: nat, cap: nat) -> nat
    decreases cap - i,
{
    if i < cap && bit(word, i) {
        climb(word, i + 1, cap)
    } else {
        i
    }
}

/// The smaller of two numbers.
pub open spec fn least(a: nat, b: nat) -> nat {
    if a <= b {
        a
    } else {
        b
    }
}

/// The height of the tower that `word` gives a new node in a container of
/// `levels` live levels and at most `n`: one more than the number of set bits
/// of `word` from bit 1 upward without a gap, and at most `levels + 1` and `n`.
pub open spec fn tower_height(word: u64, levels: nat, n: nat) -> nat {
    climb(word, 1, least(levels + 1, n))
}

/// `climb` ends between its start and its cap.
pub proof fn lemma_climb_bounds(word: u64, i: nat, cap: nat)
    requires
        i <= cap,
    ensures
        i <= climb(word, i, cap) <= cap,
    decreases cap - i,
{
    if i < cap && bit(word, i) {
        lemma_climb_bounds(word, i + 1, cap);
    }
}

/// Towers after a node with a tower drawn from `word` has gone in at
/// position `p`. The first node of all has one level. At position 0 the new
/// node takes over the head's tower and the former head keeps one level;
/// elsewhere the head's tower grows where the new tower is higher.
pub open spec fn towers_after_insert(towers: Seq<nat>, p: int, word: u64, n: nat) -> Seq<nat> {
    let top = towers[0];
    let height = tower_height(word, top, n);
    if towers.len() == 0 {
        seq![1nat]
    } else if p == 0 {
        towers.update(0, 1).insert(0, top)
    } else if height > top {
        towers.insert(p, height).update(0, height)
    } else {
        towers.insert(p, height)
    }
}

/// Towers after the node at position `p` has gone: the head's tower is as
/// high as the remaining towers ask for.
pub open spec fn towers_after_remove(towers: Seq<nat>, p: int) -> Seq<nat> {
    let rest = towers.remove(p);
    if rest.len() == 0 {
        rest
    } else {
        rest.update(0, crest(rest))
    }
}

/// Sorted keys stay sorted when a key goes in at its rank.
pub proof fn lemma_sorted_insert<K: Ord>(keys: Seq<K>, key: K)
    requires
        total_order::<K>(),
        sorted(keys),
    ensures
        0 <= rank(keys, key) <= keys.len(),
        sorted(keys.insert(rank(keys, key), key)),
{
    let p = rank(keys, key);
    let keys2 = keys.insert(p, key);
    lemma_rank_splits(keys, key);
    assert forall|a: int, b: int| 0 <= a < b < keys2.len() implies !lt(
        #[trigger] keys2[b],
        #[trigger] keys2[a],
    ) by {
        let was_a = if a < p {
            a
        } else {
            a - 1
        };
        let was_b = if b < p {
            b
        } else {
            b - 1
        };
        if a != p {
            assert(keys2[a] == keys[was_a]);
        }
        if b != p {
            assert(keys2[b] == keys[was_b]);
        }
        if a == p {
            assert(!lt(keys[was_b], key));
        } else if b == p {
            assert(lt(keys[was_a], key));
            lemma_trichotomy(keys[was_a], key);
        } else {
            assert(!lt(keys[was_b], keys[was_a]));
        }
    }
}

/// Sorted keys stay sorted when one goes out.
pub proof fn lemma_sorted_remove<K: Ord>(keys: Seq<K>, p: int)
    requires
        sorted(keys),
        0 <= p < keys.len(),
    ensures
        sorted(keys.remove(p)),
{
    let keys2 = keys.remove(p);
    assert forall|a: int, b: int| 0 <= a < b < keys2.len() implies !lt(
        #[trigger] keys2[b],
        #[trigger] keys2[a],
    ) by {
        let was_a = if a < p {
            a
        } else {
            a + 1
        };
        let was_b = if b < p {
            b
        } else {
            b + 1
        };
        assert(keys2[a] == keys[was_a]);
        assert(keys2[b] == keys[was_b]);
        assert(!lt(keys[was_b], keys[was_a]));
    }
}

/// Towers stay as a container keeps them when a node goes in.
pub proof fn lemma_towers_after_insert(towers: Seq<nat>, p: int, word: u64, n: nat)
    requires
        well_towered(towers, n),
        0 <= p <= towers.len(),
    ensures
        well_towered(towers_after_insert(towers, p, word, n), n),
        towers_after_insert(towers, p, word, n).len() == towers.len() + 1,
        towers[0] <= towers_after_insert(towers, p, word, n)[0] <= towers[0] + 1,
{
    let top = towers[0];
    let height = tower_height(word, top, n);
    let towers2 = towers_after_insert(towers, p, word, n);
    lemma_peak_props(towers, 1);
    lemma_climb_bounds(word, 1, least(top + 1, n));
    if p == 0 {
        assert forall|k: int| 0 <= k < towers2.len() implies 1 <= #[trigger] towers2[k]
            <= towers2[0] by {
            if k > 1 {
                assert(towers2[k] == towers[k - 1]);
            }
        }
        if top != 1 {
            let k = choose|k: int| 1 <= k < towers.len() && #[trigger] towers[k] == top;
            assert(towers2[k + 1] == top);
        }
        lemma_peak_is(towers2, 1, top);
    } else {
        assert forall|k: int| 0 <= k < towers2.len() implies 1 <= #[trigger] towers2[k]
            <= towers2[0] by {
            let was = if k < p {
                k
            } else {
                k - 1
            };
            if k != p {
                assert(towers[was] <= top);
            }
        }
        if height <= top && top != 1 {
            let k = choose|k: int| 1 <= k < towers.len() && #[trigger] towers[k] == top;
            let now = if k < p {
                k
            } else {
                k + 1
            };
            assert(towers2[now] == top);
        }
        if height > top {
            assert(towers2[p] == height);
        }
        lemma_peak_is(towers2, 1, towers2[0]);
    }
}

/// Towers stay as a container keeps them when a node goes out and another
/// is left.
pub proof fn lemma_towers_after_remove(towers: Seq<nat>, p: int, n: nat)
    requires
        well_towered(towers, n),
        0 <= p < towers.len(),
        towers.len() >= 2,
    ensures
        well_towered(towers_after_remove(towers, p), n),
        towers_after_remove(towers, p).len() == towers.len() - 1,
        towers_after_remove(towers, p)[0] <= towers[0],
{
    let rest = towers.remove(p);
    let towers2 = towers_after_remove(towers, p);
    lemma_peak_props(towers, 1);
    lemma_peak_props(rest, 1);
    lemma_crest_ignores_head(rest, crest(rest));
    assert forall|k: int| 1 <= k < rest.len() implies (#[trigger] rest[k]) <= towers[0] by {
        let was = if k < p {
            k
        } else {
            k + 1
        };
        assert(rest[k] == towers[was]);
    }
    if crest(rest) != 1 {
        let k = choose|k: int| 1 <= k < rest.len() && #[trigger] rest[k] == crest(rest);
        assert(rest[k] <= towers[0]);
    }
    assert forall|k: int| 0 <= k < towers2.len() implies 1 <= #[trigger] towers2[k]
        <= towers2[0] by {
        if k > 0 {
            let was = if k < p {
                k
            } else {
                k + 1
            };
            assert(rest[k] == towers[was]);
            assert(rest[k] <= crest(rest));
        }
    }
}

/// The map that entries make: each key with the value that stands beside it.
pub open spec fn to_map<K, V>(entries: Seq<(K, V)>) -> Map<K, V> {
    Map::new(
        |key: K| keys_of(entries).contains(key),
        |key: K| entries[keys_of(entries).index_of(key)].1,
    )
}

/// Strictly sorted keys are sorted, and no key stands twice.
pub proof fn lemma_strict_keys<K: Ord>(keys: Seq<K>)
    requires
        total_order::<K>(),
        strictly_sorted(keys),
    ensures
        sorted(keys),
        keys.no_duplicates(),
{
    assert forall|a: int, b: int| 0 <= a < b < keys.len() implies !lt(
        #[trigger] keys[b],
        #[trigger] keys[a],
    ) by {
        lemma_trichotomy(keys[a], keys[b]);
    }
    assert forall|a: int, b: int| 0 <= a < keys.len() && 0 <= b < keys.len() && a
        != b implies keys[a] != keys[b] by {
        lemma_trichotomy(keys[a], keys[b]);
        if a < b {
            assert(lt(keys[a], keys[b]));
        } else {
            assert(lt(keys[b], keys[a]));
        }
    }
}

/// Where no key stands twice, the map holds each entry under its key.
pub proof fn lemma_to_map_at<K, V>(entries: Seq<(K, V)>, k: int)
    requires
        keys_of(entries).no_duplicates(),
        0 <= k < entries.len(),
    ensures
        to_map(entries).contains_key(entries[k].0),
        to_map(entries)[entries[k].0] == entries[k].1,
{
    let keys = keys_of(entries);
    assert(keys[k] == entries[k].0);
    let found = keys.index_of(keys[k]);
    assert(0 <= found < keys.len() && keys[found] == keys[k]);
}

/// Strictly sorted keys stay so when a key that is not among them goes in
/// at its rank.
pub proof fn lemma_strict_insert<K: Ord>(keys: Seq<K>, key: K)
    requires
        total_order::<K>(),
        strictly_sorted(keys),
        !keys.contains(key),
    ensures
        strictly_sorted(keys.insert(rank(keys, key), key)),
{
    let p = rank(keys, key);
    let keys2 = keys.insert(p, key);
    lemma_strict_keys(keys);
    lemma_rank_splits(keys, key);
    assert forall|a: int, b: int| 0 <= a < b < keys2.len() implies lt(
        #[trigger] keys2[a],
        #[trigger] keys2[b],
    ) by {
        let was_a = if a < p {
            a
        } else {
            a - 1
        };
        let was_b = if b < p {
            b
        } else {
            b - 1
        };
        if a != p {
            assert(keys2[a] == keys[was_a]);
        }
        if b != p {
            assert(keys2[b] == keys[was_b]);
        }
        if a == p {
            assert(!lt(keys[was_b], key));
            assert(keys.contains(keys[was_b]));
            lemma_trichotomy(key, keys[was_b]);
        } else if b == p {
            assert(lt(keys[was_a], key));
        } else {
            assert(lt(keys[was_a], keys[was_b]));
        }
    }
}

/// Strictly sorted keys stay so when one goes out.
pub proof fn lemma_strict_remove<K: Ord>(keys: Seq<K>, p: int)
    requires
        strictly_sorted(keys),
        0 <= p < keys.len(),
    ensures
        strictly_sorted(keys.remove(p)),
{
    let keys2 = keys.remove(p);
    assert forall|a: int, b: int| 0 <= a < b < keys2.len() implies lt(
        #[trigger] keys2[a],
        #[trigger] keys2[b],
    ) by {
        let was_a = if a < p {
            a
        } else {
            a + 1
        };
        let was_b = if b < p {
            b
        } else {
            b + 1
        };
        assert(keys2[a] == keys[was_a]);
        assert(keys2[b] == keys[was_b]);
        assert(lt(keys[was_a], keys[was_b]));
    }
}

/// An entry whose key is new goes into the map under its key.
pub proof fn lemma_to_map_insert<K, V>(entries: Seq<(K, V)>, p: int, entry: (K, V))
    requires
        keys_of(entries).no_duplicates(),
        !keys_of(entries).contains(entry.0),
        0 <= p <= entries.len(),
    ensures
        keys_of(entries.insert(p, entry)) == keys_of(entries).insert(p, entry.0),
        keys_of(entries.insert(p, entry)).no_duplicates(),
        to_map(entries.insert(p, entry)) == to_map(entries).insert(entry.0, entry.1),
{
    let keys = keys_of(entries);
    let entries2 = entries.insert(p, entry);
    let keys2 = keys_of(entries2);
    assert(keys2 =~= keys.insert(p, entry.0));
    assert forall|a: int, b: int| 0 <= a < keys2.len() && 0 <= b < keys2.len() && a
        != b implies keys2[a] != keys2[b] by {
        let was_a = if a < p {
            a
        } else {
            a - 1
        };
        let was_b = if b < p {
            b
        } else {
            b - 1
        };
        if a != p {
            assert(keys2[a] == keys[was_a]);
            assert(keys.contains(keys[was_a]));
        }
        if b != p {
            assert(keys2[b] == keys[was_b]);
            assert(keys.contains(keys[was_b]));
        }
    }
    let left = to_map(entries2);
    let right = to_map(entries).insert(entry.0, entry.1);
    assert forall|key: K| left.contains_key(key) <==> right.contains_key(key) by {
        if keys2.contains(key) {
            let a = choose|a: int| 0 <= a < keys2.len() && keys2[a] == key;
            if a != p {
                let was = if a < p {
                    a
                } else {
                    a - 1
                };
                assert(keys[was] == key);
            }
        }
        if keys.contains(key) {
            let a = choose|a: int| 0 <= a < keys.len() && keys[a] == key;
            let now = if a < p {
                a
            } else {
                a + 1
            };
            assert(keys2[now] == key);
        }
        assert(keys2[p] == entry.0);
    }
    assert forall|key: K| left.contains_key(key) implies left[key] == right[key] by {
        let a = choose|a: int| 0 <= a < keys2.len() && keys2[a] == key;
        assert(entries2[a].0 == key);
        lemma_to_map_at(entries2, a);
        if a != p {
            let was = if a < p {
                a
            } else {
                a - 1
            };
            assert(entries2[a] == entries[was]);
            lemma_to_map_at(entries, was);
        }
    }
    assert(left =~= right);
}

/// An entry that takes the place of one with its key goes into the map under
/// that key.
pub proof fn lemma_to_map_update<K, V>(entries: Seq<(K, V)>, p: int, entry: (K, V))
    requires
        keys_of(entries).no_duplicates(),
        0 <= p < entries.len(),
        entries[p].0 == entry.0,
    ensures
        keys_of(entries.update(p, entry)) == keys_of(entries),
        to_map(entries.update(p, entry)) == to_map(entries).insert(entry.0, entry.1),
{
    let keys = keys_of(entries);
    let entries2 = entries.update(p, entry);
    let keys2 = keys_of(entries2);
    assert(keys2 =~= keys);
    let left = to_map(entries2);
    let right = to_map(entries).insert(entry.0, entry.1);
    assert(keys[p] == entry.0);
    assert forall|key: K| left.contains_key(key) <==> right.contains_key(key) by {}
    assert forall|key: K| left.contains_key(key) implies left[key] == right[key] by {
        let a = choose|a: int| 0 <= a < keys.len() && keys[a] == key;
        assert(entries2[a].0 == key);
        lemma_to_map_at(entries2, a);
        if a != p {
            lemma_to_map_at(entries, a);
        }
    }
    assert(left =~= right);
}

/// An entry that goes out leaves the map without its key.
pub proof fn lemma_to_map_remove<K, V>(entries: Seq<(K, V)>, p: int)
    requires
        keys_of(entries).no_duplicates(),
        0 <= p < entries.len(),
    ensures
        keys_of(entries.remove(p)) == keys_of(entries).remove(p),
        keys_of(entries.remove(p)).no_duplicates(),
        to_map(entries.remove(p)) == to_map(entries).remove(entries[p].0),
{
    let keys = keys_of(entries);
    let entries2 = entries.remove(p);
    let keys2 = keys_of(entries2);
    assert(keys2 =~= keys.remove(p));
    assert forall|a: int, b: int| 0 <= a < keys2.len() && 0 <= b < keys2.len() && a
        != b implies keys2[a] != keys2[b] by {
        let was_a = if a < p {
            a
        } else {
            a + 1
        };
        let was_b = if b < p {
            b
        } else {
            b + 1
        };
        assert(keys2[a] == keys[was_a]);
        assert(keys2[b] == keys[was_b]);
    }
    let left = to_map(entries2);
    let right = to_map(entries).remove(entries[p].0);
    assert(keys[p] == entries[p].0);
    assert forall|key: K| left.contains_key(key) <==> right.contains_key(key) by {
        if keys2.contains(key) {
            let a = choose|a: int| 0 <= a < keys2.len() && keys2[a] == key;
            let was = if a < p {
                a
            } else {
                a + 1
            };
            assert(keys[was] == key);
        }
        if keys.contains(key) && key != entries[p].0 {
            let a = choose|a: int| 0 <= a < keys.len() && keys[a] == key;
            let now = if a < p {
                a
            } else {
                a - 1
            };
            assert(keys2[now] == key);
        }
    }
    assert forall|key: K| left.contains_key(key) implies left[key] == right[key] by {
        let a = choose|a: int| 0 <= a < keys2.len() && keys2[a] == key;
        let was = if a < p {
            a
        } else {
            a + 1
        };
        assert(entries2[a] == entries[was]);
        assert(entries2[a].0 == key);
        lemma_to_map_at(entries2, a);
        lemma_to_map_at(entries, was);
    }
    assert(left =~= right);
}

/// Where no key stands twice, the map has as many keys as there are entries.
pub proof fn lemma_to_map_len<K, V>(entries: Seq<(K, V)>)
    requires
        keys_of(entries).no_duplicates(),
    ensures
        to_map(entries).dom().finite(),
        to_map(entries).len() == entries.len(),
    decreases entries.len(),
{
    if entries.len() == 0 {
        assert(to_map(entries) =~= Map::<K, V>::empty());
    } else {
        let last = entries.len() - 1;
        let rest = entries.remove(last);
        lemma_to_map_remove(entries, last);
        lemma_to_map_len(rest);
        lemma_to_map_at(entries, last);
        assert(to_map(entries) =~= to_map(rest).insert(entries[last].0, entries[last].1));
    }
}

} // verus!

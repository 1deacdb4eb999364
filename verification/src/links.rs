//! How the links of a level change when a node goes in or out.

use crate::model::hop;
use crate::model::lemma_succ_is;
use crate::model::lemma_succ_props;
use crate::model::succ;
use vstd::prelude::*;

verus! {

/// The slot of the first node after position `k` whose tower rises above
/// level `i`.
pub open spec fn after(order: Seq<usize>, towers: Seq<nat>, k: int, i: int) -> Option<usize> {
    if succ(towers, k, i) < towers.len() {
        Some(order[succ(towers, k, i)])
    } else {
        None
    }
}

/// The slot that the link of node `k` on level `i` has to name.
pub open spec fn ideal(order: Seq<usize>, towers: Seq<nat>, k: int, i: int) -> Option<usize> {
    match hop(towers, k, i) {
        Some(j) => Some(order[j]),
        None => None,
    }
}

/// A link names what comes after its node, where the node's tower rises
/// above the level.
pub proof fn lemma_ideal_after(order: Seq<usize>, towers: Seq<nat>, k: int, i: int)
    ensures
        ideal(order, towers, k, i) == (if towers[k] > i {
            after(order, towers, k, i)
        } else {
            None
        }),
{
}

/// `succ` looks only at whether the later towers rise above the level.
pub proof fn lemma_succ_same(t1: Seq<nat>, t2: Seq<nat>, k: int, i: int)
    requires
        t1.len() == t2.len(),
        -1 <= k < t1.len(),
        forall|m: int| k < m < t1.len() ==> ((#[trigger] t1[m]) > i <==> t2[m] > i),
    ensures
        succ(t1, k, i) == succ(t2, k, i),
{
    lemma_succ_props(t1, k, i);
    let j = succ(t1, k, i);
    assert forall|m: int| k < m < j implies (#[trigger] t2[m]) <= i by {
        assert(t1[m] <= i);
    }
    lemma_succ_is(t2, k, i, j);
}

/// What comes after a node once the node at position `p` has gone.
pub proof fn lemma_after_remove(order: Seq<usize>, towers: Seq<nat>, p: int, k: int, i: int)
    requires
        order.len() == towers.len(),
        0 <= p < towers.len(),
        -1 <= k < towers.len(),
        k != p,
    ensures
        after(order.remove(p), towers.remove(p), if k < p { k } else { k - 1 }, i) == (if succ(
            towers,
            k,
            i,
        ) == p {
            after(order, towers, p, i)
        } else {
            after(order, towers, k, i)
        }),
{
    let o2 = order.remove(p);
    let t2 = towers.remove(p);
    let k2 = if k < p { k } else { k - 1 };
    lemma_succ_props(towers, k, i);
    let j = succ(towers, k, i);
    if j == p {
        lemma_succ_props(towers, p, i);
        let j2 = succ(towers, p, i);
        assert forall|m: int| k2 < m < j2 - 1 implies (#[trigger] t2[m]) <= i by {
            if m < p {
                assert(t2[m] == towers[m]);
            } else {
                assert(t2[m] == towers[m + 1]);
            }
        }
        if j2 < towers.len() {
            assert(t2[j2 - 1] == towers[j2]);
            assert(o2[j2 - 1] == order[j2]);
        }
        lemma_succ_is(t2, k2, i, j2 - 1);
    } else if j < p {
        assert forall|m: int| k2 < m < j implies (#[trigger] t2[m]) <= i by {
            assert(t2[m] == towers[m]);
        }
        assert(t2[j] == towers[j]);
        assert(o2[j] == order[j]);
        lemma_succ_is(t2, k2, i, j);
    } else {
        assert forall|m: int| k2 < m < j - 1 implies (#[trigger] t2[m]) <= i by {
            if m < p {
                assert(t2[m] == towers[m]);
            } else {
                assert(t2[m] == towers[m + 1]);
            }
        }
        if j < towers.len() {
            assert(t2[j - 1] == towers[j]);
            assert(o2[j - 1] == order[j]);
        }
        lemma_succ_is(t2, k2, i, j - 1);
    }
}

/// What comes after a node that was there before, once a node in slot `s`
/// with a tower of height `h` has gone in at position `p`.
pub proof fn lemma_after_insert(
    order: Seq<usize>,
    towers: Seq<nat>,
    p: int,
    s: usize,
    h: nat,
    k: int,
    i: int,
)
    requires
        order.len() == towers.len(),
        0 <= p <= towers.len(),
        -1 <= k < towers.len(),
    ensures
        after(order.insert(p, s), towers.insert(p, h), if k < p { k } else { k + 1 }, i) == (if h
            > i && k < p && succ(towers, k, i) >= p {
            Some(s)
        } else {
            after(order, towers, k, i)
        }),
{
    let o2 = order.insert(p, s);
    let t2 = towers.insert(p, h);
    let k2 = if k < p { k } else { k + 1 };
    lemma_succ_props(towers, k, i);
    let j = succ(towers, k, i);
    if k < p && j >= p {
        if h > i {
            assert forall|m: int| k2 < m < p implies (#[trigger] t2[m]) <= i by {
                assert(t2[m] == towers[m]);
            }
            assert(t2[p] == h);
            assert(o2[p] == s);
            lemma_succ_is(t2, k2, i, p);
        } else {
            assert forall|m: int| k2 < m < j + 1 implies (#[trigger] t2[m]) <= i by {
                if m < p {
                    assert(t2[m] == towers[m]);
                } else if m > p {
                    assert(t2[m] == towers[m - 1]);
                }
            }
            if j < towers.len() {
                assert(t2[j + 1] == towers[j]);
                assert(o2[j + 1] == order[j]);
            }
            lemma_succ_is(t2, k2, i, j + 1);
        }
    } else if k < p {
        assert forall|m: int| k2 < m < j implies (#[trigger] t2[m]) <= i by {
            assert(t2[m] == towers[m]);
        }
        assert(t2[j] == towers[j]);
        assert(o2[j] == order[j]);
        lemma_succ_is(t2, k2, i, j);
    } else {
        assert forall|m: int| k2 < m < j + 1 implies (#[trigger] t2[m]) <= i by {
            assert(t2[m] == towers[m - 1]);
        }
        if j < towers.len() {
            assert(t2[j + 1] == towers[j]);
            assert(o2[j + 1] == order[j]);
        }
        lemma_succ_is(t2, k2, i, j + 1);
    }
}

/// What comes after the node that has gone in at position `p`: what came
/// after the node before it.
pub proof fn lemma_after_inserted(
    order: Seq<usize>,
    towers: Seq<nat>,
    p: int,
    s: usize,
    h: nat,
    i: int,
)
    requires
        order.len() == towers.len(),
        0 <= p <= towers.len(),
    ensures
        after(order.insert(p, s), towers.insert(p, h), p, i) == after(order, towers, p - 1, i),
{
    let o2 = order.insert(p, s);
    let t2 = towers.insert(p, h);
    lemma_succ_props(towers, p - 1, i);
    let j = succ(towers, p - 1, i);
    assert forall|m: int| p < m < j + 1 implies (#[trigger] t2[m]) <= i by {
        assert(t2[m] == towers[m - 1]);
    }
    if j < towers.len() {
        assert(t2[j + 1] == towers[j]);
        assert(o2[j + 1] == order[j]);
    }
    lemma_succ_is(t2, p, i, j + 1);
}

/// What comes after a node does not depend on the towers up to it.
pub proof fn lemma_after_update(
    order: Seq<usize>,
    towers: Seq<nat>,
    at: int,
    h: nat,
    k: int,
    i: int,
)
    requires
        order.len() == towers.len(),
        0 <= at <= k < towers.len(),
    ensures
        after(order, towers.update(at, h), k, i) == after(order, towers, k, i),
{
    lemma_succ_same(towers, towers.update(at, h), k, i);
}

/// What comes after a node is what comes after the next, where the next
/// node's tower ends at or below the level.
pub proof fn lemma_after_skip(order: Seq<usize>, towers: Seq<nat>, k: int, i: int)
    requires
        order.len() == towers.len(),
        -1 <= k,
        k + 1 < towers.len(),
        towers[k + 1] <= i,
    ensures
        after(order, towers, k, i) == after(order, towers, k + 1, i),
{
}

/// On one level at most one node leads to a given position.
pub proof fn lemma_one_before(towers: Seq<nat>, a: int, b: int, i: int)
    requires
        0 <= a < towers.len(),
        0 <= b < towers.len(),
        towers[a] > i,
        towers[b] > i,
        succ(towers, a, i) == succ(towers, b, i),
    ensures
        a == b,
{
    lemma_succ_props(towers, a, i);
    lemma_succ_props(towers, b, i);
    if a < b {
        assert(towers[b] <= i);
    }
    if b < a {
        assert(towers[a] <= i);
    }
}

/// A node that comes before position `p`, and after which nothing up to `p`
/// rises above the level, is the one that what stands at `p - 1` has behind it
/// on that level.
pub proof fn lemma_after_from(order: Seq<usize>, towers: Seq<nat>, q: int, p: int, i: int)
    requires
        order.len() == towers.len(),
        -1 <= q < p <= towers.len(),
        succ(towers, q, i) >= p,
    ensures
        after(order, towers, p - 1, i) == after(order, towers, q, i),
        succ(towers, p - 1, i) == succ(towers, q, i),
{
    lemma_succ_props(towers, q, i);
    let j = succ(towers, q, i);
    assert forall|m: int| p - 1 < m < j implies (#[trigger] towers[m]) <= i by {}
    lemma_succ_is(towers, p - 1, i, j);
}

} // verus!

//! The storage of a container that holds at least one entry.

use crate::arena::Arena;
use crate::links::after;
use crate::links::lemma_after_from;
use crate::links::lemma_after_insert;
use crate::links::lemma_after_inserted;
use crate::links::lemma_after_remove;
use crate::links::lemma_one_before;
use crate::links::lemma_succ_same;
use crate::model::lemma_rank_splits;
use crate::model::lemma_sorted_insert;
use crate::model::lemma_sorted_remove;
use crate::model::lemma_towers_after_insert;
use crate::links::lemma_after_skip;
use crate::links::lemma_after_update;
use crate::model::bit;
use crate::model::bit_set;
use crate::model::capped;
use crate::model::climb;
use crate::model::least;
use crate::model::lemma_climb_bounds;
use crate::model::tower_height;
use crate::model::towers_after_insert;
use crate::model::crest;
use crate::model::lemma_crest_ignores_head;
use crate::model::towers_after_remove;
use crate::links::ideal;
use crate::model::hop;
use crate::model::keys_of;
use crate::model::lane;
use crate::model::lane_from;
use crate::model::lemma_first_not_before;
use crate::model::lemma_first_not_before_props;
use crate::model::lemma_peak_is;
use crate::model::lemma_peak_props;
use crate::model::lemma_succ_is;
use crate::model::lemma_succ_props;
use crate::model::rank;
use crate::model::sorted;
use crate::model::succ;
use crate::model::well_towered;
use crate::entry::Entry;
use crate::node::NodeView;
use crate::node::SkipNode;
use crate::order::compare;
use crate::order::is_before;
use crate::order::is_same;
use crate::order::lemma_le_lt;
use crate::order::lemma_trichotomy;
use crate::order::lt;
use crate::order::total_order;
use crate::order::Relation;
use crate::rng::fresh;
use crate::rng::next_word;
use rand::rngs::SmallRng;
use vstd::prelude::*;

verus! {

/// Slot `s` holds a node with `n` links.
pub open spec fn occupied<T>(cells: Seq<Option<NodeView<T>>>, s: usize, n: nat) -> bool {
    &&& s < cells.len()
    &&& cells[s as int] is Some
    &&& cells[s as int].unwrap().links.len() == n
}

/// The key of the node at position `k`.
pub open spec fn key_at<K, V>(
    cells: Seq<Option<NodeView<Entry<K, V>>>>,
    order: Seq<usize>,
    k: int,
) -> K {
    cells[order[k] as int].unwrap().value.key
}

/// The entries of the nodes, by position.
pub open spec fn entries_of<K, V>(
    cells: Seq<Option<NodeView<Entry<K, V>>>>,
    order: Seq<usize>,
) -> Seq<(K, V)> {
    Seq::new(order.len(), |k: int| cells[order[k] as int].unwrap().value@)
}

/// The link of node `k` on level `i`.
pub open spec fn link_in<T>(
    cells: Seq<Option<NodeView<T>>>,
    order: Seq<usize>,
    k: int,
    i: int,
) -> Option<usize> {
    cells[order[k] as int].unwrap().links[i]
}

/// The link of node `k` on level `i` names the slot that it has to.
pub open spec fn linked<T>(
    cells: Seq<Option<NodeView<T>>>,
    order: Seq<usize>,
    towers: Seq<nat>,
    k: int,
    i: int,
) -> bool {
    link_in(cells, order, k, i) == ideal(order, towers, k, i)
}

/// The nodes are in the slots that `order` names, each once, and no other
/// slot holds a node; they are linked on every level as `towers` asks.
pub open spec fn shaped<T>(
    cells: Seq<Option<NodeView<T>>>,
    order: Seq<usize>,
    towers: Seq<nat>,
    n: nat,
) -> bool {
    &&& order.len() == towers.len()
    &&& order.no_duplicates()
    &&& forall|k: int| 0 <= k < order.len() ==> occupied(cells, #[trigger] order[k], n)
    &&& forall|s: usize|
        s < cells.len() && cells[s as int] is Some ==> #[trigger] order.contains(s)
    &&& forall|k: int, i: int|
        0 <= k < order.len() && 0 <= i < n ==> #[trigger] linked(cells, order, towers, k, i)
}

/// The position of the node that a new node is linked behind on level `i`:
/// the recorded one on a level that was live, and the head on a new level.
pub open spec fn pred_of(places: Seq<int>, top: nat, i: int) -> int {
    if i < top {
        places[i]
    } else {
        0
    }
}

/// The links after a node in slot `node` with a tower of `height` levels has
/// been linked in at position `p`, behind the node `pred_of` names on each
/// level of its tower: they are as the towers with the new one ask.
proof fn lemma_spliced<T>(
    cells: Seq<Option<NodeView<T>>>,
    cells2: Seq<Option<NodeView<T>>>,
    order: Seq<usize>,
    towers: Seq<nat>,
    places: Seq<int>,
    p: int,
    node: usize,
    height: nat,
    n: nat,
)
    requires
        shaped(cells, order, towers, n),
        capped(towers, n),
        1 <= p <= order.len(),
        1 <= height <= towers[0] + 1,
        height <= n,
        places.len() == towers[0],
        forall|i: int|
            0 <= i < towers[0] ==> 0 <= #[trigger] places[i] < p && towers[places[i]] > i && succ(
                towers,
                places[i],
                i,
            ) >= p,
        forall|k: int|
            0 <= k < order.len() ==> occupied(cells2, #[trigger] order[k], n) && order[k] != node,
        occupied(cells2, node, n),
        forall|s: usize|
            s < cells2.len() && cells2[s as int] is Some ==> s == node || #[trigger] order.contains(
                s,
            ),
        forall|k: int, i: int|
            0 <= k < order.len() && 0 <= i < n ==> #[trigger] link_in(cells2, order, k, i) == (if i
                < height && k == pred_of(places, towers[0], i) {
                Some(node)
            } else {
                link_in(cells, order, k, i)
            }),
        forall|i: int|
            0 <= i < n ==> #[trigger] cells2[node as int].unwrap().links[i] == (if i < height {
                link_in(cells, order, pred_of(places, towers[0], i), i)
            } else {
                None
            }),
    ensures
        shaped(
            cells2,
            order.insert(p, node),
            if height > towers[0] {
                towers.insert(p, height).update(0, height)
            } else {
                towers.insert(p, height)
            },
            n,
        ),
{
    let top = towers[0];
    let order2 = order.insert(p, node);
    let raised = if height > top {
        towers.update(0, height)
    } else {
        towers
    };
    let towers2 = raised.insert(p, height);
    assert(towers2 =~= (if height > towers[0] {
        towers.insert(p, height).update(0, height)
    } else {
        towers.insert(p, height)
    }));
    assert forall|a: int, b: int| 0 <= a < order2.len() && 0 <= b < order2.len() && a
        != b implies order2[a] != order2[b] by {
        let was_a = if a < p {
            a
        } else {
            a - 1
        };
        let was_b = if b < p {
            b
        } else {
            b - 1
        };
        if a != p {
            assert(order2[a] == order[was_a]);
        }
        if b != p {
            assert(order2[b] == order[was_b]);
        }
    }
    assert forall|k: int| 0 <= k < order2.len() implies occupied(
        cells2,
        #[trigger] order2[k],
        n,
    ) by {
        let was = if k < p {
            k
        } else {
            k - 1
        };
        if k != p {
            assert(order2[k] == order[was]);
        }
    }
    assert forall|s: usize|
        s < cells2.len() && cells2[s as int] is Some implies #[trigger] order2.contains(s) by {
        if s == node {
            assert(order2[p] == s);
        } else {
            assert(order.contains(s));
            let k = choose|k: int| 0 <= k < order.len() && order[k] == s;
            let now = if k < p {
                k
            } else {
                k + 1
            };
            assert(order2[now] == s);
        }
    }
    assert forall|m: int| 0 < m < towers.len() implies (#[trigger] towers[m]) <= top by {}
    assert forall|k: int, i: int| 0 <= k < order2.len() && 0 <= i < n implies #[trigger] linked(
        cells2,
        order2,
        towers2,
        k,
        i,
    ) by {
        let q = pred_of(places, top, i);
        if i < top {
            assert(0 <= places[i] < p);
            lemma_succ_props(towers, q, i);
            assert(linked(cells, order, towers, q, i));
        } else {
            lemma_succ_is(towers, 0, i, towers.len() as int);
            lemma_succ_is(towers, p - 1, i, towers.len() as int);
            assert(linked(cells, order, towers, 0, i));
        }
        if k != p {
            let was = if k < p {
                k
            } else {
                k - 1
            };
            assert(order2[k] == order[was]);
            assert(towers2[k] == raised[was]);
            assert(link_in(cells2, order2, k, i) == link_in(cells2, order, was, i));
            assert(linked(cells, order, towers, was, i));
            lemma_after_insert(order, raised, p, node, height, was, i);
            lemma_succ_props(towers, was, i);
            if height > top {
                lemma_after_update(order, towers, 0, height, was, i);
                lemma_succ_same(towers, raised, was, i);
            }
        } else {
            assert(order2[p] == node);
            assert(towers2[p] == height);
            lemma_after_inserted(order, raised, p, node, height, i);
            if height > top {
                lemma_after_update(order, towers, 0, height, p - 1, i);
            }
            if i < top {
                lemma_after_from(order, towers, q, p, i);
            }
        }
    }
}

/// Whether `link` names slot `s`.
fn names(link: Option<usize>, s: usize) -> (r: bool)
    ensures
        r == (link == Some(s)),
{
    match link {
        Some(t) => t == s,
        None => false,
    }
}

/// A skip list with at least one entry. The node with the least key is the
/// head; every search starts from it.
pub struct NonEmptyStorage<K, V, const N: usize> {
    rng: SmallRng,
    arena: Arena<Entry<K, V>, N>,
    head: usize,
    levels: usize,
    order: Ghost<Seq<usize>>,
    towers: Ghost<Seq<nat>>,
}

impl<K: Ord, V, const N: usize> NonEmptyStorage<K, V, N> {
    /// The entries in the order of their keys.
    pub closed spec fn entries(&self) -> Seq<(K, V)> {
        entries_of(self.arena@, self.order@)
    }

    /// The height of each node's tower, by position.
    pub closed spec fn towers(&self) -> Seq<nat> {
        self.towers@
    }

    /// The position that the link of node `k` on level `i` leads to.
    pub closed spec fn link(&self, k: int, i: int) -> Option<int> {
        match self.arena@[self.order@[k] as int].unwrap().links[i] {
            Some(s) => Some(self.order@.index_of(s)),
            None => None,
        }
    }

    /// The storage is sound: the keys are sorted, the head is the first node,
    /// and on every level the links run through the nodes whose towers rise
    /// above it, in order.
    pub closed spec fn wf(&self) -> bool {
        &&& self.inner()
        &&& self.towers@[0] == crest(self.towers@)
    }

    /// All of `wf` but that the head's tower is no higher than needed.
    spec fn inner(&self) -> bool {
        &&& N >= 1
        &&& total_order::<K>()
        &&& self.arena.wf()
        &&& shaped(self.arena@, self.order@, self.towers@, N as nat)
        &&& capped(self.towers@, N as nat)
        &&& self.levels == self.towers@[0]
        &&& self.head == self.order@[0]
        &&& sorted(keys_of(self.entries()))
    }

    /// Node `q` is the last on level `i` whose key is before `key`.
    spec fn is_pred(&self, q: int, i: int, key: K) -> bool {
        &&& 0 <= q < self.order@.len()
        &&& self.towers@[q] > i
        &&& lt(key_at(self.arena@, self.order@, q), key)
        &&& succ(self.towers@, q, i) < self.order@.len() ==> !lt(
            key_at(self.arena@, self.order@, succ(self.towers@, q, i)),
            key,
        )
    }

    /// A storage that holds `value` alone.
    pub fn new(value: Entry<K, V>) -> (storage: Self)
        requires
            N >= 1,
            total_order::<K>(),
        ensures
            storage.wf(),
            storage.entries() == seq![value@],
            storage.towers() == seq![1nat],
    {
        let mut arena: Arena<Entry<K, V>, N> = Arena::new();
        let head: usize = arena.occupy(SkipNode::new(value));
        let order: Ghost<Seq<usize>> = Ghost(Seq::empty().push(head));
        let towers: Ghost<Seq<nat>> = Ghost(Seq::empty().push(1nat));
        let storage = NonEmptyStorage { rng: fresh(), arena, head, levels: 1, order, towers };
        proof {
            let towers = seq![1nat];
            let order = seq![head];
            assert(storage.entries() =~= seq![value@]);
            assert(forall|k: int, i: int|
                0 <= k < 1 && 0 <= i < N ==> #[trigger] linked(storage.arena@, order, towers, k, i));
            assert forall|s: usize|
                s < storage.arena@.len() && storage.arena@[s as int]
                    is Some implies #[trigger] order.contains(s) by {
                assert(order[0] == s);
            }
        }
        storage
    }

    /// The number of live levels.
    pub fn levels(&self) -> (levels: usize)
        requires
            self.wf(),
        ensures
            levels == self.towers()[0],
            1 <= levels <= N,
    {
        proof {
            lemma_peak_props(self.towers@, 1);
        }
        self.levels
    }

    /// How the head's key stands to `key`.
    fn head_relation(&self, key: &K) -> (r: Relation)
        requires
            self.wf(),
        ensures
            r is Less <==> lt(key_at(self.arena@, self.order@, 0), *key),
            r is Equal <==> key_at(self.arena@, self.order@, 0) == *key,
            r is Greater <==> lt(*key, key_at(self.arena@, self.order@, 0)),
    {
        assert(occupied(self.arena@, self.order@[0], N as nat));
        compare(&self.arena.value(self.head).key, key)
    }

    /// Walks along level `level` from the node in slot `from`, as long as the
    /// next key is before `key`, and returns the slot where the walk ends.
    fn advance(&self, from: usize, level: usize, key: &K, Ghost(at): Ghost<int>) -> (r: (
        usize,
        Ghost<int>,
    ))
        requires
            self.wf(),
            0 <= at < self.order@.len(),
            self.order@[at] == from,
            level < self.towers@[at],
            lt(key_at(self.arena@, self.order@, at), *key),
        ensures
            self.is_pred(r.1@, level as int, *key),
            self.order@[r.1@] == r.0,
            at <= r.1@,
    {
        let mut prev: usize = from;
        let ghost mut q: int = at;
        proof {
            lemma_peak_props(self.towers@, 1);
        }
        loop
            invariant
                self.wf(),
                0 <= q < self.order@.len(),
                self.order@[q] == prev,
                level < self.towers@[q],
                level < N,
                lt(key_at(self.arena@, self.order@, q), *key),
                at <= q,
            ensures
                self.is_pred(q, level as int, *key),
            decreases self.order@.len() - q,
        {
            proof {
                assert(occupied(self.arena@, self.order@[q], N as nat));
                assert(linked(self.arena@, self.order@, self.towers@, q, level as int));
                lemma_succ_props(self.towers@, q, level as int);
            }
            match self.arena.link(prev, level) {
                None => {
                    break ;
                },
                Some(next) => {
                    let ghost j: int = succ(self.towers@, q, level as int);
                    assert(occupied(self.arena@, self.order@[j], N as nat));
                    if is_before(&self.arena.value(next).key, key) {
                        prev = next;
                        proof {
                            q = j;
                        }
                    } else {
                        break ;
                    }
                },
            }
        }
        (prev, Ghost(q))
    }

    /// Descends from the head and the highest live level to level 0, and
    /// returns the slot of the last node whose key is before `key`.
    fn seek(&self, key: &K) -> (r: (usize, Ghost<int>))
        requires
            self.wf(),
            lt(key_at(self.arena@, self.order@, 0), *key),
        ensures
            self.is_pred(r.1@, 0, *key),
            self.order@[r.1@] == r.0,
    {
        let mut prev: usize = self.head;
        let ghost mut q: int = 0;
        let mut level: usize = self.levels;
        proof {
            lemma_peak_props(self.towers@, 1);
        }
        while level > 0
            invariant
                self.wf(),
                0 <= q < self.order@.len(),
                self.order@[q] == prev,
                level <= self.towers@[q],
                level <= self.levels,
                lt(key_at(self.arena@, self.order@, q), *key),
                level < self.levels ==> self.is_pred(q, level as int, *key),
            decreases level,
        {
            level = level - 1;
            let (s, Ghost(at)) = self.advance(prev, level, key, Ghost(q));
            prev = s;
            proof {
                q = at;
            }
        }
        (prev, Ghost(q))
    }

    /// Descends as `seek` does and records, for each live level, the slot of
    /// the last node on it whose key is before `key`.
    fn descend(&self, key: &K) -> (r: (Vec<usize>, Ghost<Seq<int>>))
        requires
            self.wf(),
            lt(key_at(self.arena@, self.order@, 0), *key),
        ensures
            r.0@.len() == self.levels,
            r.1@.len() == self.levels,
            forall|i: int|
                0 <= i < self.levels ==> self.is_pred(#[trigger] r.1@[i], i, *key)
                    && self.order@[r.1@[i]] == r.0@[i],
    {
        let mut trace: Vec<usize> = Vec::new();
        let mut filled: usize = 0;
        while filled < self.levels
            invariant
                filled <= self.levels,
                trace@.len() == filled,
            decreases self.levels - filled,
        {
            trace.push(self.head);
            filled = filled + 1;
        }
        let ghost mut places: Seq<int> = Seq::new(self.levels as nat, |i: int| 0);
        let mut prev: usize = self.head;
        let ghost mut q: int = 0;
        let mut level: usize = self.levels;
        proof {
            lemma_peak_props(self.towers@, 1);
        }
        while level > 0
            invariant
                self.wf(),
                0 <= q < self.order@.len(),
                self.order@[q] == prev,
                level <= self.towers@[q],
                level <= self.levels,
                lt(key_at(self.arena@, self.order@, q), *key),
                trace@.len() == self.levels,
                places.len() == self.levels,
                forall|i: int|
                    level <= i < self.levels ==> self.is_pred(#[trigger] places[i], i, *key)
                        && self.order@[places[i]] == trace@[i],
            decreases level,
        {
            level = level - 1;
            let (s, Ghost(at)) = self.advance(prev, level, key, Ghost(q));
            prev = s;
            trace[level] = prev;
            proof {
                q = at;
                places = places.update(level as int, at);
            }
        }
        (trace, Ghost(places))
    }

    /// The entry stored under `key`, if there is one: the first of them where
    /// several are.
    pub fn get(&self, key: &K) -> (found: Option<&Entry<K, V>>)
        requires
            self.wf(),
        ensures
            ({
                let p = rank(keys_of(self.entries()), *key);
                match found {
                    Some(entry) => p < self.entries().len() && entry@ == self.entries()[p]
                        && entry.key == *key,
                    None => p >= self.entries().len() || keys_of(self.entries())[p] != *key,
                }
            }),
    {
        let ghost keys = keys_of(self.entries());
        assert(occupied(self.arena@, self.order@[0], N as nat));
        match self.head_relation(key) {
            Relation::Greater => {
                proof {
                    lemma_trichotomy(keys[0], *key);
                    lemma_first_not_before(keys, *key, 0, 0);
                }
                None
            },
            Relation::Equal => {
                proof {
                    lemma_trichotomy(keys[0], *key);
                    lemma_first_not_before(keys, *key, 0, 0);
                }
                Some(self.arena.value(self.head))
            },
            Relation::Less => {
                let (prev, Ghost(q)) = self.seek(key);
                proof {
                    assert(occupied(self.arena@, self.order@[q], N as nat));
                    assert(linked(self.arena@, self.order@, self.towers@, q, 0));
                    self.lemma_pred_rank(q, *key);
                }
                match self.arena.link(prev, 0) {
                    None => None,
                    Some(next) => {
                        assert(occupied(self.arena@, self.order@[q + 1], N as nat));
                        let entry = self.arena.value(next);
                        if is_same(&entry.key, key) {
                            Some(entry)
                        } else {
                            None
                        }
                    },
                }
            },
        }
    }

    /// The node behind the last one at level 0 whose key is before `key`
    /// stands at the rank of `key`.
    proof fn lemma_pred_rank(&self, q: int, key: K)
        requires
            self.wf(),
            self.is_pred(q, 0, key),
        ensures
            rank(keys_of(self.entries()), key) == q + 1,
            succ(self.towers@, q, 0) == q + 1,
    {
        let keys = keys_of(self.entries());
        assert forall|k: int| 0 <= k < q + 1 implies lt(#[trigger] keys[k], key) by {
            if k < q {
                assert(!lt(keys[q], keys[k]));
                lemma_le_lt(keys[k], keys[q], key);
            }
        }
        lemma_succ_is(self.towers@, q, 0, q + 1);
        lemma_first_not_before(keys, key, 0, q + 1);
    }

    /// Lowers the number of live levels to what the towers behind the head
    /// ask for.
    fn settle(&mut self)
        requires
            old(self).inner(),
        ensures
            final(self).wf(),
            final(self).arena@ == old(self).arena@,
            final(self).order@ == old(self).order@,
            final(self).towers@ == old(self).towers@.update(0, crest(old(self).towers@)),
            final(self).entries() == old(self).entries(),
    {
        let ghost before = self.towers@;
        assert(self.towers@ =~= before.update(0, self.levels as nat));
        while self.levels > 1
            invariant
                self.inner(),
                before.len() >= 1,
                self.arena@ == old(self).arena@,
                self.order@ == old(self).order@,
                self.towers@ == before.update(0, self.levels as nat),
            ensures
                self.inner(),
                self.arena@ == old(self).arena@,
                self.order@ == old(self).order@,
                self.towers@ == before.update(0, self.levels as nat),
                self.levels == 1 || succ(self.towers@, 0, self.levels - 1) < self.towers@.len(),
            decreases self.levels,
        {
            let top: usize = self.levels - 1;
            let ghost towers = self.towers@;
            let ghost order = self.order@;
            proof {
                assert(occupied(self.arena@, order[0], N as nat));
                assert(linked(self.arena@, order, towers, 0, top as int));
                lemma_succ_props(towers, 0, top as int);
            }
            if self.arena.link(self.head, top).is_some() {
                break ;
            }
            self.levels = top;
            self.towers = Ghost(towers.update(0, top as nat));
            proof {
                let lowered = towers.update(0, top as nat);
                assert forall|k: int| 0 <= k < lowered.len() implies 1 <= #[trigger] lowered[k]
                    <= lowered[0] by {
                    if k > 0 {
                        assert(towers[k] <= top);
                    }
                }
                assert forall|k: int, i: int| 0 <= k < order.len() && 0 <= i < N implies #[trigger] linked(
                    self.arena@,
                    order,
                    lowered,
                    k,
                    i,
                ) by {
                    assert(linked(self.arena@, order, towers, k, i));
                    lemma_after_update(order, towers, 0, top as nat, k, i);
                }
                assert(lowered =~= before.update(0, top as nat));
            }
        }
        proof {
            let towers = self.towers@;
            lemma_crest_ignores_head(old(self).towers@, self.levels as nat);
            if self.levels != 1 {
                lemma_succ_props(towers, 0, self.levels - 1);
                let j = succ(towers, 0, self.levels - 1);
                assert(towers[j] == self.levels);
            }
            lemma_peak_is(towers, 1, self.levels as nat);
        }
    }

    /// Takes the head out. The node behind it becomes the head and takes over
    /// the head's links on the levels above its own tower.
    fn remove_head(self) -> (r: (Option<Self>, Entry<K, V>))
        requires
            self.wf(),
        ensures
            r.1@ == self.entries()[0],
            self.entries().len() == 1 ==> r.0 is None,
            self.entries().len() > 1 ==> r.0 is Some && r.0.unwrap().wf() && r.0.unwrap().entries()
                == self.entries().remove(0) && r.0.unwrap().towers() == towers_after_remove(
                self.towers(),
                0,
            ),
    {
        let ghost cells = self.arena@;
        let ghost order = self.order@;
        let ghost towers = self.towers@;
        let mut storage = self;
        let old_head: usize = storage.head;
        proof {
            assert(occupied(cells, order[0], N as nat));
            assert(linked(cells, order, towers, 0, 0));
            lemma_succ_props(towers, 0, 0);
        }
        let new_head: usize = match storage.arena.link(old_head, 0) {
            None => {
                let entry = storage.arena.vacate(old_head);
                return (None, entry);
            },
            Some(next) => next,
        };
        assert(new_head == order[1]);
        assert(occupied(cells, order[1], N as nat));
        let mut level: usize = storage.levels;
        while level > 1
            invariant
                1 <= level <= towers[0],
                towers[1] <= level,
                storage.levels == towers[0],
                storage.arena.wf(),
                storage.arena@.len() == cells.len(),
                forall|s: int| 0 <= s < cells.len() && s != new_head ==> storage.arena@[s] == cells[s],
                occupied(storage.arena@, new_head, N as nat),
                storage.arena@[new_head as int].unwrap().value == cells[new_head as int].unwrap().value,
                forall|i: int|
                    0 <= i < N ==> #[trigger] storage.arena@[new_head as int].unwrap().links[i] == (
                    if level <= i < towers[0] {
                        cells[old_head as int].unwrap().links[i]
                    } else {
                        cells[new_head as int].unwrap().links[i]
                    }),
                shaped(cells, order, towers, N as nat),
                capped(towers, N as nat),
                order.len() > 1,
                old_head == order[0],
                new_head == order[1],
            ensures
                1 <= level <= towers[0],
                towers[1] == level,
                storage.levels == towers[0],
                storage.arena.wf(),
                storage.arena@.len() == cells.len(),
                forall|s: int| 0 <= s < cells.len() && s != new_head ==> storage.arena@[s] == cells[s],
                occupied(storage.arena@, new_head, N as nat),
                storage.arena@[new_head as int].unwrap().value == cells[new_head as int].unwrap().value,
                forall|i: int|
                    0 <= i < N ==> #[trigger] storage.arena@[new_head as int].unwrap().links[i] == (
                    if level <= i < towers[0] {
                        cells[old_head as int].unwrap().links[i]
                    } else {
                        cells[new_head as int].unwrap().links[i]
                    }),
            decreases level,
        {
            let lower: usize = level - 1;
            proof {
                assert(occupied(cells, order[0], N as nat));
                assert(linked(cells, order, towers, 0, lower as int));
                assert(linked(cells, order, towers, 1, lower as int));
                lemma_succ_props(towers, 0, lower as int);
                assert(storage.arena@[old_head as int] == cells[old_head as int]);
            }
            let head_link: Option<usize> = storage.arena.link(old_head, lower);
            let next_link: Option<usize> = storage.arena.link(new_head, lower);
            if names(head_link, new_head) || next_link.is_some() {
                break ;
            }
            storage.arena.set_link(new_head, lower, head_link);
            level = lower;
        }
        let entry = storage.arena.vacate(old_head);
        storage.head = new_head;
        storage.order = Ghost(order.remove(0));
        storage.towers = Ghost(towers.remove(0).update(0, towers[0]));
        proof {
            let cells2 = storage.arena@;
            let order2 = order.remove(0);
            let rest = towers.remove(0);
            let towers2 = rest.update(0, towers[0]);
            assert forall|k: int| 0 <= k < order2.len() implies occupied(
                cells2,
                #[trigger] order2[k],
                N as nat,
            ) by {
                assert(order2[k] == order[k + 1]);
                assert(occupied(cells, order[k + 1], N as nat));
            }
            assert forall|s: usize|
                s < cells2.len() && cells2[s as int]
                    is Some implies #[trigger] order2.contains(s) by {
                assert(cells[s as int] is Some);
                assert(order.contains(s));
                let k = choose|k: int| 0 <= k < order.len() && order[k] == s;
                assert(order2[k - 1] == s);
            }
            assert forall|k: int, i: int| 0 <= k < order2.len() && 0 <= i < N implies #[trigger] linked(
                cells2,
                order2,
                towers2,
                k,
                i,
            ) by {
                assert(order2[k] == order[k + 1]);
                assert(linked(cells, order, towers, k + 1, i));
                lemma_after_remove(order, towers, 0, k + 1, i);
                lemma_after_update(order2, rest, 0, towers[0], k, i);
                lemma_succ_props(towers, k + 1, i);
                if k == 0 {
                    assert(linked(cells, order, towers, 0, i));
                    if towers[1] <= i {
                        lemma_after_skip(order, towers, 0, i);
                    }
                }
            }
            assert forall|k: int| 0 <= k < towers2.len() implies 1 <= #[trigger] towers2[k]
                <= towers2[0] by {
                assert(towers[k + 1] <= towers[0]);
            }
            assert(storage.entries() =~= self.entries().remove(0));
            assert(keys_of(storage.entries()) =~= keys_of(self.entries()).remove(0));
            lemma_sorted_remove(keys_of(self.entries()), 0);
            lemma_crest_ignores_head(rest, towers[0]);
            assert(towers2.update(0, crest(towers2)) =~= rest.update(0, crest(rest)));
        }
        storage.settle();
        (Some(storage), entry)
    }

    /// The nodes that `descend` recorded for `key` come before the rank of
    /// `key`, and on their levels nothing between them and the rank rises
    /// above the level.
    proof fn lemma_trace_brackets(&self, places: Seq<int>, key: K, i: int)
        requires
            self.wf(),
            0 <= i < places.len(),
            self.is_pred(places[i], i, key),
        ensures
            0 <= places[i] < rank(keys_of(self.entries()), key),
            self.towers@[places[i]] > i,
            succ(self.towers@, places[i], i) >= rank(keys_of(self.entries()), key),
    {
        let keys = keys_of(self.entries());
        let p = rank(keys, key);
        let q = places[i];
        lemma_rank_splits(keys, key);
        assert(lt(keys[q], key));
        lemma_succ_props(self.towers@, q, i);
        let j = succ(self.towers@, q, i);
        if j < p {
            assert(lt(keys[j], key));
        }
    }

    /// Takes out the first node whose key is `key`, where the head's key is
    /// before `key`: on each level of its tower the node before it is linked
    /// to the node behind it.
    fn remove_after(
        self,
        trace: Vec<usize>,
        Ghost(places): Ghost<Seq<int>>,
        key: &K,
    ) -> (r: (Self, Option<Entry<K, V>>))
        requires
            self.wf(),
            trace@.len() == self.levels,
            places.len() == self.levels,
            forall|i: int|
                0 <= i < self.levels ==> self.is_pred(#[trigger] places[i], i, *key)
                    && self.order@[places[i]] == trace@[i],
        ensures
            ({
                let keys = keys_of(self.entries());
                let p = rank(keys, *key);
                if p < keys.len() && keys[p] == *key {
                    &&& r.1 is Some
                    &&& r.1.unwrap()@ == self.entries()[p]
                    &&& r.0.wf()
                    &&& r.0.entries() == self.entries().remove(p)
                    &&& r.0.towers() == towers_after_remove(self.towers(), p)
                } else {
                    &&& r.1 is None
                    &&& r.0 == self
                }
            }),
    {
        let ghost cells = self.arena@;
        let ghost order = self.order@;
        let ghost towers = self.towers@;
        let ghost keys = keys_of(self.entries());
        let ghost p = places[0] + 1;
        proof {
            lemma_peak_props(towers, 1);
            assert(self.is_pred(places[0], 0, *key));
            self.lemma_pred_rank(places[0], *key);
            assert(occupied(cells, order[places[0]], N as nat));
            assert(linked(cells, order, towers, places[0], 0));
            assert forall|i: int| 0 <= i < self.levels implies 0 <= #[trigger] places[i] < p
                && towers[places[i]] > i && succ(towers, places[i], i) >= p by {
                assert(self.is_pred(places[i], i, *key));
                self.lemma_trace_brackets(places, *key, i);
            }
        }
        let mut storage = self;
        let victim: usize = match storage.arena.link(trace[0], 0) {
            None => {
                return (storage, None);
            },
            Some(next) => next,
        };
        assert(victim == order[p]);
        assert(occupied(cells, order[p], N as nat));
        if !is_same(&storage.arena.value(victim).key, key) {
            return (storage, None);
        }
        assert(keys[p] == *key);
        let mut level: usize = 0;
        while level < storage.levels
            invariant
                level <= towers[p] <= towers[0],
                storage.levels == towers[0],
                towers[0] <= N,
                storage.head == order[0],
                storage.arena.wf(),
                storage.arena@.len() == cells.len(),
                shaped(cells, order, towers, N as nat),
                1 <= p < order.len(),
                victim == order[p],
                trace@.len() == towers[0],
                places.len() == towers[0],
                forall|i: int|
                    0 <= i < towers[0] ==> 0 <= #[trigger] places[i] < p && towers[places[i]] > i
                        && succ(towers, places[i], i) >= p && order[places[i]] == trace@[i],
                forall|k: int|
                    0 <= k < order.len() ==> occupied(storage.arena@, #[trigger] order[k], N as nat)
                        && storage.arena@[order[k] as int].unwrap().value
                        == cells[order[k] as int].unwrap().value,
                forall|s: usize|
                    s < cells.len() && storage.arena@[s as int] is Some ==> #[trigger] order.contains(
                        s,
                    ),
                forall|k: int, i: int|
                    0 <= k < order.len() && 0 <= i < N ==> #[trigger] link_in(
                        storage.arena@,
                        order,
                        k,
                        i,
                    ) == (if i < level && k == places[i] {
                        link_in(cells, order, p, i)
                    } else {
                        link_in(cells, order, k, i)
                    }),
            ensures
                level == towers[p],
                storage.levels == towers[0],
                storage.head == order[0],
                storage.arena.wf(),
                storage.arena@.len() == cells.len(),
                forall|k: int|
                    0 <= k < order.len() ==> occupied(storage.arena@, #[trigger] order[k], N as nat)
                        && storage.arena@[order[k] as int].unwrap().value
                        == cells[order[k] as int].unwrap().value,
                forall|s: usize|
                    s < cells.len() && storage.arena@[s as int] is Some ==> #[trigger] order.contains(
                        s,
                    ),
                forall|k: int, i: int|
                    0 <= k < order.len() && 0 <= i < N ==> #[trigger] link_in(
                        storage.arena@,
                        order,
                        k,
                        i,
                    ) == (if i < level && k == places[i] {
                        link_in(cells, order, p, i)
                    } else {
                        link_in(cells, order, k, i)
                    }),
            decreases towers[0] - level,
        {
            let prev: usize = trace[level];
            let ghost q = places[level as int];
            let ghost before = storage.arena@;
            proof {
                assert(order[q] == prev);
                assert(occupied(before, order[q], N as nat));
                assert(occupied(before, order[p], N as nat));
                assert(link_in(before, order, q, level as int) == link_in(
                    cells,
                    order,
                    q,
                    level as int,
                ));
                assert(link_in(before, order, p, level as int) == link_in(
                    cells,
                    order,
                    p,
                    level as int,
                ));
                assert(linked(cells, order, towers, q, level as int));
                lemma_succ_props(towers, q, level as int);
            }
            if !names(storage.arena.link(prev, level), victim) {
                break ;
            }
            let next: Option<usize> = storage.arena.link(victim, level);
            storage.arena.set_link(prev, level, next);
            proof {
                let now = storage.arena@;
                assert forall|k: int| 0 <= k < order.len() implies occupied(
                    now,
                    #[trigger] order[k],
                    N as nat,
                ) && now[order[k] as int].unwrap().value == cells[order[k] as int].unwrap().value by {
                    assert(occupied(before, order[k], N as nat));
                }
                assert forall|k: int, i: int| 0 <= k < order.len() && 0 <= i < N implies #[trigger] link_in(
                    now,
                    order,
                    k,
                    i,
                ) == (if i < level + 1 && k == places[i] {
                    link_in(cells, order, p, i)
                } else {
                    link_in(cells, order, k, i)
                }) by {
                    assert(link_in(before, order, k, i) == (if i < level && k == places[i] {
                        link_in(cells, order, p, i)
                    } else {
                        link_in(cells, order, k, i)
                    }));
                    assert(occupied(before, order[k], N as nat));
                }
            }
            level = level + 1;
        }
        let ghost mid = storage.arena@;
        let entry = storage.arena.vacate(victim);
        storage.order = Ghost(order.remove(p));
        storage.towers = Ghost(towers.remove(p));
        proof {
            let cells2 = storage.arena@;
            let order2 = order.remove(p);
            let towers2 = towers.remove(p);
            assert forall|k: int| 0 <= k < order2.len() implies occupied(
                cells2,
                #[trigger] order2[k],
                N as nat,
            ) by {
                let was = if k < p {
                    k
                } else {
                    k + 1
                };
                assert(order2[k] == order[was]);
                assert(occupied(mid, order[was], N as nat));
            }
            assert forall|s: usize|
                s < cells2.len() && cells2[s as int]
                    is Some implies #[trigger] order2.contains(s) by {
                assert(mid[s as int] is Some);
                assert(order.contains(s));
                let k = choose|k: int| 0 <= k < order.len() && order[k] == s;
                let now = if k < p {
                    k
                } else {
                    k - 1
                };
                assert(order2[now] == s);
            }
            assert forall|k: int, i: int| 0 <= k < order2.len() && 0 <= i < N implies #[trigger] linked(
                cells2,
                order2,
                towers2,
                k,
                i,
            ) by {
                let was = if k < p {
                    k
                } else {
                    k + 1
                };
                assert(order2[k] == order[was]);
                assert(towers2[k] == towers[was]);
                assert(occupied(mid, order[was], N as nat));
                assert(link_in(cells2, order2, k, i) == link_in(mid, order, was, i));
                assert(linked(cells, order, towers, was, i));
                assert(linked(cells, order, towers, p, i));
                lemma_after_remove(order, towers, p, was, i);
                lemma_succ_props(towers, was, i);
                if i < towers[p] {
                    let q = places[i];
                    lemma_succ_props(towers, q, i);
                    if succ(towers, q, i) > p {
                        assert(towers[p] <= i);
                    }
                    assert(linked(cells, order, towers, q, i));
                    if towers[was] > i && succ(towers, was, i) == p {
                        lemma_one_before(towers, was, q, i);
                    }
                }
            }
            assert forall|k: int| 0 <= k < towers2.len() implies 1 <= #[trigger] towers2[k]
                <= towers2[0] by {
                let was = if k < p {
                    k
                } else {
                    k + 1
                };
                assert(towers2[k] == towers[was]);
                assert(towers[was] <= towers[0]);
            }
            assert(storage.entries() =~= self.entries().remove(p));
            assert(keys_of(storage.entries()) =~= keys.remove(p));
            lemma_sorted_remove(keys, p);
        }
        storage.settle();
        (storage, Some(entry))
    }

    /// Takes out the first entry stored under `key`, if there is one, and
    /// returns what is left of the storage with the entry.
    pub fn remove(self, key: &K) -> (r: (Option<Self>, Option<Entry<K, V>>))
        requires
            self.wf(),
        ensures
            ({
                let keys = keys_of(self.entries());
                let p = rank(keys, *key);
                if p < keys.len() && keys[p] == *key {
                    &&& r.1 is Some
                    &&& r.1.unwrap()@ == self.entries()[p]
                    &&& r.0 is Some <==> self.entries().len() > 1
                    &&& r.0 is Some ==> r.0.unwrap().wf() && r.0.unwrap().entries()
                        == self.entries().remove(p) && r.0.unwrap().towers() == towers_after_remove(
                        self.towers(),
                        p,
                    )
                } else {
                    &&& r.1 is None
                    &&& r.0 == Some(self)
                }
            }),
    {
        let ghost keys = keys_of(self.entries());
        assert(keys[0] == key_at(self.arena@, self.order@, 0));
        match self.head_relation(key) {
            Relation::Greater => {
                proof {
                    lemma_trichotomy(keys[0], *key);
                    lemma_first_not_before(keys, *key, 0, 0);
                }
                (Some(self), None)
            },
            Relation::Equal => {
                proof {
                    lemma_trichotomy(keys[0], *key);
                    lemma_first_not_before(keys, *key, 0, 0);
                }
                let (rest, entry) = self.remove_head();
                (rest, Some(entry))
            },
            Relation::Less => {
                proof {
                    assert(lt(keys[0], *key));
                    lemma_first_not_before_props(keys, *key, 1);
                }
                let (trace, Ghost(places)) = self.descend(key);
                let (rest, removed) = self.remove_after(trace, Ghost(places), key);
                (Some(rest), removed)
            },
        }
    }

    /// Puts `value` in front of the head. The new node becomes the head and
    /// takes over the former head's links above level 0.
    fn insert_head(&mut self, value: Entry<K, V>)
        requires
            old(self).wf(),
            !lt(key_at(old(self).arena@, old(self).order@, 0), value.key),
        ensures
            final(self).wf(),
            final(self).entries() == old(self).entries().insert(0, value@),
            final(self).towers() == old(self).towers().update(0, 1).insert(
                0,
                old(self).towers()[0],
            ),
    {
        let ghost cells = self.arena@;
        let ghost order = self.order@;
        let ghost towers = self.towers@;
        let ghost keys = keys_of(self.entries());
        let old_head: usize = self.head;
        proof {
            lemma_peak_props(towers, 1);
        }
        let node: usize = self.arena.occupy(SkipNode::new(value));
        let ghost grown = self.arena@;
        proof {
            assert forall|k: int| 0 <= k < order.len() implies occupied(
                grown,
                #[trigger] order[k],
                N as nat,
            ) && order[k] != node && grown[order[k] as int] == cells[order[k] as int] by {
                assert(occupied(cells, order[k], N as nat));
            }
        }
        self.arena.set_link(node, 0, Some(old_head));
        let mut level: usize = 1;
        while level < self.levels
            invariant
                1 <= level <= towers[0],
                self.levels == towers[0],
                towers[0] <= N,
                self.head == old_head,
                old_head == order[0],
                order.len() >= 1,
                order.no_duplicates(),
                self.order@ == order,
                self.towers@ == towers,
                self.arena.wf(),
                self.arena@.len() == grown.len(),
                forall|k: int|
                    0 <= k < order.len() ==> occupied(self.arena@, #[trigger] order[k], N as nat)
                        && order[k] != node && self.arena@[order[k] as int].unwrap().value
                        == cells[order[k] as int].unwrap().value,
                forall|k: int, i: int|
                    0 <= k < order.len() && 0 <= i < N ==> #[trigger] link_in(
                        self.arena@,
                        order,
                        k,
                        i,
                    ) == (if k == 0 && 1 <= i < level {
                        None
                    } else {
                        link_in(cells, order, k, i)
                    }),
                occupied(self.arena@, node, N as nat),
                self.arena@[node as int].unwrap().value == value,
                forall|s: usize|
                    s < self.arena@.len() && self.arena@[s as int] is Some ==> s == node
                        || #[trigger] order.contains(s),
                forall|i: int|
                    0 <= i < N ==> #[trigger] self.arena@[node as int].unwrap().links[i] == (if i
                        == 0 {
                        Some(old_head)
                    } else if i < level {
                        link_in(cells, order, 0, i)
                    } else {
                        None
                    }),
            decreases towers[0] - level,
        {
            let ghost before = self.arena@;
            proof {
                assert(occupied(before, order[0], N as nat));
                assert(link_in(before, order, 0, level as int) == link_in(
                    cells,
                    order,
                    0,
                    level as int,
                ));
            }
            let moved: Option<usize> = self.arena.link(old_head, level);
            self.arena.set_link(node, level, moved);
            self.arena.set_link(old_head, level, None);
            proof {
                let now = self.arena@;
                assert forall|k: int| 0 <= k < order.len() implies occupied(
                    now,
                    #[trigger] order[k],
                    N as nat,
                ) && order[k] != node && now[order[k] as int].unwrap().value
                    == cells[order[k] as int].unwrap().value by {
                    assert(occupied(before, order[k], N as nat));
                }
                assert forall|k: int, i: int| 0 <= k < order.len() && 0 <= i < N implies #[trigger] link_in(
                    now,
                    order,
                    k,
                    i,
                ) == (if k == 0 && 1 <= i < level + 1 {
                    None
                } else {
                    link_in(cells, order, k, i)
                }) by {
                    assert(link_in(before, order, k, i) == (if k == 0 && 1 <= i < level {
                        None
                    } else {
                        link_in(cells, order, k, i)
                    }));
                    assert(occupied(before, order[k], N as nat));
                }
            }
            level = level + 1;
        }
        self.head = node;
        self.order = Ghost(order.insert(0, node));
        self.towers = Ghost(towers.update(0, 1).insert(0, towers[0]));
        proof {
            let cells2 = self.arena@;
            let order2 = order.insert(0, node);
            let lowered = towers.update(0, 1);
            let towers2 = lowered.insert(0, towers[0]);
            assert forall|a: int, b: int| 0 <= a < order2.len() && 0 <= b < order2.len() && a
                != b implies order2[a] != order2[b] by {
                if a > 0 {
                    assert(order2[a] == order[a - 1]);
                }
                if b > 0 {
                    assert(order2[b] == order[b - 1]);
                }
            }
            assert forall|k: int| 0 <= k < order2.len() implies occupied(
                cells2,
                #[trigger] order2[k],
                N as nat,
            ) by {
                if k > 0 {
                    assert(order2[k] == order[k - 1]);
                }
            }
            assert forall|s: usize|
                s < cells2.len() && cells2[s as int]
                    is Some implies #[trigger] order2.contains(s) by {
                if s == node {
                    assert(order2[0] == s);
                } else {
                    assert(order.contains(s));
                    let k = choose|k: int| 0 <= k < order.len() && order[k] == s;
                    assert(order2[k + 1] == s);
                }
            }
            assert forall|k: int, i: int| 0 <= k < order2.len() && 0 <= i < N implies #[trigger] linked(
                cells2,
                order2,
                towers2,
                k,
                i,
            ) by {
                if k > 0 {
                    let was = k - 1;
                    assert(order2[k] == order[was]);
                    assert(towers2[k] == lowered[was]);
                    assert(link_in(cells2, order2, k, i) == link_in(cells2, order, was, i));
                    assert(linked(cells, order, towers, was, i));
                    lemma_after_insert(order, lowered, 0, node, towers[0], was, i);
                    lemma_after_update(order, towers, 0, 1, was, i);
                } else {
                    assert(order2[0] == node);
                    assert(linked(cells, order, towers, 0, i));
                    lemma_after_inserted(order, lowered, 0, node, towers[0], i);
                    if i >= 1 {
                        lemma_after_skip(order, lowered, -1, i);
                        lemma_after_update(order, towers, 0, 1, 0, i);
                    }
                }
            }
            lemma_towers_after_insert(towers, 0, 0, N as nat);
            assert(towers2 =~= towers_after_insert(towers, 0, 0, N as nat));
            assert(self.entries() =~= old(self).entries().insert(0, value@));
            assert(keys_of(self.entries()) =~= keys.insert(0, value.key));
            lemma_first_not_before(keys, value.key, 0, 0);
            lemma_sorted_insert(keys, value.key);
        }
    }

    /// Links the node in slot `node` on level `level` behind the node in slot
    /// `prev`: it takes over the link of `prev`, which then names it.
    fn splice(&mut self, node: usize, prev: usize, level: usize)
        requires
            old(self).arena.wf(),
            occupied(old(self).arena@, node, N as nat),
            occupied(old(self).arena@, prev, N as nat),
            node != prev,
            level < N,
        ensures
            final(self).arena.wf(),
            final(self).arena@.len() == old(self).arena@.len(),
            forall|s: int|
                0 <= s < old(self).arena@.len() && s != node && s != prev ==> final(self).arena@[s]
                    == old(self).arena@[s],
            final(self).arena@[node as int] == Some(
                NodeView {
                    value: old(self).arena@[node as int].unwrap().value,
                    links: old(self).arena@[node as int].unwrap().links.update(
                        level as int,
                        old(self).arena@[prev as int].unwrap().links[level as int],
                    ),
                },
            ),
            final(self).arena@[prev as int] == Some(
                NodeView {
                    value: old(self).arena@[prev as int].unwrap().value,
                    links: old(self).arena@[prev as int].unwrap().links.update(
                        level as int,
                        Some(node),
                    ),
                },
            ),
            final(self).head == old(self).head,
            final(self).levels == old(self).levels,
            final(self).order@ == old(self).order@,
            final(self).towers@ == old(self).towers@,
    {
        let next: Option<usize> = self.arena.link(prev, level);
        self.arena.set_link(node, level, next);
        self.arena.set_link(prev, level, Some(node));
    }

    /// Puts `value` behind the nodes that `descend` recorded for its key:
    /// on level 0 always, and on each further level as long as the bit of
    /// `word` for that level is set, up to one level above the live ones.
    fn insert_after(
        &mut self,
        trace: Vec<usize>,
        Ghost(places): Ghost<Seq<int>>,
        value: Entry<K, V>,
        word: u64,
    )
        requires
            old(self).wf(),
            trace@.len() == old(self).levels,
            places.len() == old(self).levels,
            forall|i: int|
                0 <= i < old(self).levels ==> old(self).is_pred(#[trigger] places[i], i, value.key)
                    && old(self).order@[places[i]] == trace@[i],
        ensures
            final(self).wf(),
            final(self).entries() == old(self).entries().insert(
                rank(keys_of(old(self).entries()), value.key),
                value@,
            ),
            final(self).towers() == towers_after_insert(
                old(self).towers(),
                rank(keys_of(old(self).entries()), value.key),
                word,
                N as nat,
            ),
    {
        let ghost cells = self.arena@;
        let ghost order = self.order@;
        let ghost towers = self.towers@;
        let ghost keys = keys_of(self.entries());
        let ghost p = places[0] + 1;
        let ghost top = towers[0];
        let ghost limit = least(top + 1, N as nat);
        let ghost height = tower_height(word, top, N as nat);
        proof {
            lemma_peak_props(towers, 1);
            assert(self.is_pred(places[0], 0, value.key));
            self.lemma_pred_rank(places[0], value.key);
            assert forall|i: int| 0 <= i < top implies 0 <= #[trigger] places[i] < p
                && towers[places[i]] > i && succ(towers, places[i], i) >= p by {
                assert(self.is_pred(places[i], i, value.key));
                self.lemma_trace_brackets(places, value.key, i);
            }
            lemma_climb_bounds(word, 1, limit);
        }
        let node: usize = self.arena.occupy(SkipNode::new(value));
        let ghost grown = self.arena@;
        proof {
            assert forall|k: int| 0 <= k < order.len() implies occupied(
                grown,
                #[trigger] order[k],
                N as nat,
            ) && order[k] != node && grown[order[k] as int] == cells[order[k] as int] by {
                assert(occupied(cells, order[k], N as nat));
            }
            assert(occupied(grown, order[places[0]], N as nat));
        }
        self.splice(node, trace[0], 0);
        let cap: usize = if self.levels < N {
            self.levels + 1
        } else {
            N
        };
        let mut level: usize = 1;
        while level < cap
            invariant
                1 <= level <= cap,
                cap == limit,
                limit <= N,
                top == towers[0],
                1 <= top <= N,
                limit <= top + 1,
                self.levels == top + (if level > top {
                    1nat
                } else {
                    0nat
                }),
                climb(word, level as nat, limit) == height,
                self.head == order[0],
                self.order@ == order,
                self.towers@ == towers,
                order.len() == towers.len(),
                order.len() >= 1,
                order.no_duplicates(),
                self.arena.wf(),
                self.arena@.len() == grown.len(),
                trace@.len() == top,
                places.len() == top,
                forall|i: int| 0 <= i < top ==> 0 <= #[trigger] places[i] < order.len()
                    && order[places[i]] == trace@[i],
                forall|k: int|
                    0 <= k < order.len() ==> occupied(self.arena@, #[trigger] order[k], N as nat)
                        && order[k] != node && self.arena@[order[k] as int].unwrap().value
                        == cells[order[k] as int].unwrap().value,
                forall|k: int, i: int|
                    0 <= k < order.len() && 0 <= i < N ==> #[trigger] link_in(
                        self.arena@,
                        order,
                        k,
                        i,
                    ) == (if i < level && k == pred_of(places, top, i) {
                        Some(node)
                    } else {
                        link_in(cells, order, k, i)
                    }),
                occupied(self.arena@, node, N as nat),
                self.arena@[node as int].unwrap().value == value,
                forall|s: usize|
                    s < self.arena@.len() && self.arena@[s as int] is Some ==> s == node
                        || #[trigger] order.contains(s),
                forall|i: int|
                    0 <= i < N ==> #[trigger] self.arena@[node as int].unwrap().links[i] == (if i
                        < level {
                        link_in(cells, order, pred_of(places, top, i), i)
                    } else {
                        None
                    }),
            ensures
                level == height,
                self.levels == top + (if level > top {
                    1nat
                } else {
                    0nat
                }),
                self.head == order[0],
                self.order@ == order,
                self.towers@ == towers,
                self.arena.wf(),
                self.arena@.len() == grown.len(),
                forall|k: int|
                    0 <= k < order.len() ==> occupied(self.arena@, #[trigger] order[k], N as nat)
                        && order[k] != node && self.arena@[order[k] as int].unwrap().value
                        == cells[order[k] as int].unwrap().value,
                forall|k: int, i: int|
                    0 <= k < order.len() && 0 <= i < N ==> #[trigger] link_in(
                        self.arena@,
                        order,
                        k,
                        i,
                    ) == (if i < level && k == pred_of(places, top, i) {
                        Some(node)
                    } else {
                        link_in(cells, order, k, i)
                    }),
                occupied(self.arena@, node, N as nat),
                self.arena@[node as int].unwrap().value == value,
                forall|s: usize|
                    s < self.arena@.len() && self.arena@[s as int] is Some ==> s == node
                        || #[trigger] order.contains(s),
                forall|i: int|
                    0 <= i < N ==> #[trigger] self.arena@[node as int].unwrap().links[i] == (if i
                        < level {
                        link_in(cells, order, pred_of(places, top, i), i)
                    } else {
                        None
                    }),
            decreases cap - level,
        {
            if !bit_set(word, level) {
                break ;
            }
            let ghost before = self.arena@;
            let ghost q = pred_of(places, top, level as int);
            let prev: usize = if level >= self.levels {
                self.levels = self.levels + 1;
                self.head
            } else {
                trace[level]
            };
            proof {
                assert(prev == order[q]);
                assert(occupied(before, order[q], N as nat));
                assert(link_in(before, order, q, level as int) == link_in(
                    cells,
                    order,
                    q,
                    level as int,
                ));
            }
            self.splice(node, prev, level);
            proof {
                let now = self.arena@;
                assert forall|k: int| 0 <= k < order.len() implies occupied(
                    now,
                    #[trigger] order[k],
                    N as nat,
                ) && order[k] != node && now[order[k] as int].unwrap().value
                    == cells[order[k] as int].unwrap().value by {
                    assert(occupied(before, order[k], N as nat));
                }
                assert forall|k: int, i: int| 0 <= k < order.len() && 0 <= i < N implies #[trigger] link_in(
                    now,
                    order,
                    k,
                    i,
                ) == (if i < level + 1 && k == pred_of(places, top, i) {
                    Some(node)
                } else {
                    link_in(cells, order, k, i)
                }) by {
                    assert(link_in(before, order, k, i) == (if i < level && k == pred_of(
                        places,
                        top,
                        i,
                    ) {
                        Some(node)
                    } else {
                        link_in(cells, order, k, i)
                    }));
                    assert(occupied(before, order[k], N as nat));
                }
            }
            level = level + 1;
        }
        self.order = Ghost(order.insert(p, node));
        self.towers = Ghost(towers_after_insert(towers, p, word, N as nat));
        proof {
            lemma_spliced(cells, self.arena@, order, towers, places, p, node, height, N as nat);
            lemma_towers_after_insert(towers, p, word, N as nat);
            assert(self.entries() =~= old(self).entries().insert(p, value@));
            assert(keys_of(self.entries()) =~= keys.insert(p, value.key));
            lemma_sorted_insert(keys, value.key);
        }
    }

    /// Puts `value` in, in front of the entries whose key is not before its
    /// own. `word` decides the height of the new node's tower.
    pub fn insert_with(&mut self, value: Entry<K, V>, word: u64)
        requires
            old(self).wf(),
        ensures
            final(self).wf(),
            final(self).entries() == old(self).entries().insert(
                rank(keys_of(old(self).entries()), value.key),
                value@,
            ),
            final(self).towers() == towers_after_insert(
                old(self).towers(),
                rank(keys_of(old(self).entries()), value.key),
                word,
                N as nat,
            ),
    {
        let ghost keys = keys_of(self.entries());
        assert(keys[0] == key_at(self.arena@, self.order@, 0));
        match self.head_relation(&value.key) {
            Relation::Less => {
                let (trace, Ghost(places)) = self.descend(&value.key);
                self.insert_after(trace, Ghost(places), value, word);
            },
            _ => {
                proof {
                    lemma_trichotomy(keys[0], value.key);
                    lemma_first_not_before(keys, value.key, 0, 0);
                }
                self.insert_head(value);
            },
        }
    }

    /// Puts `value` in as `insert_with` does, with a word drawn from the
    /// storage's random source.
    pub fn insert(&mut self, value: Entry<K, V>)
        requires
            old(self).wf(),
        ensures
            final(self).wf(),
            final(self).entries() == old(self).entries().insert(
                rank(keys_of(old(self).entries()), value.key),
                value@,
            ),
            exists|word: u64|
                final(self).towers() == #[trigger] towers_after_insert(
                    old(self).towers(),
                    rank(keys_of(old(self).entries()), value.key),
                    word,
                    N as nat,
                ),
    {
        let word: u64 = next_word(&mut self.rng);
        assert(self.towers() == old(self).towers());
        assert(self.entries() == old(self).entries());
        self.insert_with(value, word);
    }

    /// Puts `value` into the node at position `k`, whose key is the key of
    /// `value`, and returns the entry that the node held.
    fn replace_at(&mut self, slot: usize, Ghost(k): Ghost<int>, value: Entry<K, V>) -> (previous:
        Entry<K, V>)
        requires
            old(self).wf(),
            0 <= k < old(self).order@.len(),
            old(self).order@[k] == slot,
            key_at(old(self).arena@, old(self).order@, k) == value.key,
        ensures
            final(self).wf(),
            previous@ == old(self).entries()[k],
            final(self).entries() == old(self).entries().update(k, value@),
            final(self).towers() == old(self).towers(),
    {
        let ghost cells = self.arena@;
        let ghost order = self.order@;
        let ghost towers = self.towers@;
        assert(occupied(cells, order[k], N as nat));
        let previous = self.arena.replace_value(slot, value);
        proof {
            let cells2 = self.arena@;
            assert forall|j: int| 0 <= j < order.len() implies occupied(
                cells2,
                #[trigger] order[j],
                N as nat,
            ) by {
                assert(occupied(cells, order[j], N as nat));
            }
            assert forall|j: int, i: int| 0 <= j < order.len() && 0 <= i < N implies #[trigger] linked(
                cells2,
                order,
                towers,
                j,
                i,
            ) by {
                assert(occupied(cells, order[j], N as nat));
                assert(linked(cells, order, towers, j, i));
            }
            assert(self.entries() =~= old(self).entries().update(k, value@));
            assert(keys_of(self.entries()) =~= keys_of(old(self).entries()));
        }
        previous
    }

    /// Puts `value` in place of the entry stored under its key and returns
    /// that entry, or puts it in as `insert_with` does where there is none.
    pub fn upsert_with(&mut self, value: Entry<K, V>, word: u64) -> (previous: Option<Entry<K, V>>)
        requires
            old(self).wf(),
        ensures
            final(self).wf(),
            ({
                let keys = keys_of(old(self).entries());
                let p = rank(keys, value.key);
                if p < keys.len() && keys[p] == value.key {
                    &&& previous is Some
                    &&& previous.unwrap()@ == old(self).entries()[p]
                    &&& final(self).entries() == old(self).entries().update(p, value@)
                    &&& final(self).towers() == old(self).towers()
                } else {
                    &&& previous is None
                    &&& final(self).entries() == old(self).entries().insert(p, value@)
                    &&& final(self).towers() == towers_after_insert(
                        old(self).towers(),
                        p,
                        word,
                        N as nat,
                    )
                }
            }),
    {
        let ghost keys = keys_of(self.entries());
        assert(keys[0] == key_at(self.arena@, self.order@, 0));
        match self.head_relation(&value.key) {
            Relation::Greater => {
                proof {
                    lemma_trichotomy(keys[0], value.key);
                    lemma_first_not_before(keys, value.key, 0, 0);
                }
                self.insert_head(value);
                None
            },
            Relation::Equal => {
                proof {
                    lemma_trichotomy(keys[0], value.key);
                    lemma_first_not_before(keys, value.key, 0, 0);
                }
                let head: usize = self.head;
                Some(self.replace_at(head, Ghost(0), value))
            },
            Relation::Less => {
                let (trace, Ghost(places)) = self.descend(&value.key);
                let ghost q = places[0];
                proof {
                    assert(self.is_pred(q, 0, value.key));
                    assert(occupied(self.arena@, self.order@[q], N as nat));
                    assert(linked(self.arena@, self.order@, self.towers@, q, 0));
                    self.lemma_pred_rank(q, value.key);
                }
                match self.arena.link(trace[0], 0) {
                    Some(next) => {
                        assert(occupied(self.arena@, self.order@[q + 1], N as nat));
                        assert(keys[q + 1] == key_at(self.arena@, self.order@, q + 1));
                        if is_same(&self.arena.value(next).key, &value.key) {
                            return Some(self.replace_at(next, Ghost(q + 1), value));
                        }
                    },
                    None => {},
                }
                self.insert_after(trace, Ghost(places), value, word);
                None
            },
        }
    }

    /// Puts `value` in as `upsert_with` does, with a word drawn from the
    /// storage's random source.
    pub fn upsert(&mut self, value: Entry<K, V>) -> (previous: Option<Entry<K, V>>)
        requires
            old(self).wf(),
        ensures
            final(self).wf(),
            ({
                let keys = keys_of(old(self).entries());
                let p = rank(keys, value.key);
                if p < keys.len() && keys[p] == value.key {
                    &&& previous is Some
                    &&& previous.unwrap()@ == old(self).entries()[p]
                    &&& final(self).entries() == old(self).entries().update(p, value@)
                    &&& final(self).towers() == old(self).towers()
                } else {
                    &&& previous is None
                    &&& final(self).entries() == old(self).entries().insert(p, value@)
                    &&& exists|word: u64|
                        final(self).towers() == #[trigger] towers_after_insert(
                            old(self).towers(),
                            p,
                            word,
                            N as nat,
                        )
                }
            }),
    {
        let word: u64 = next_word(&mut self.rng);
        assert(self.towers() == old(self).towers());
        assert(self.entries() == old(self).entries());
        self.upsert_with(value, word)
    }

    /// A sound storage holds at least one entry and a tower for each; its
    /// keys are sorted and its towers are as a container keeps them.
    pub proof fn lemma_shape(&self)
        requires
            self.wf(),
        ensures
            N >= 1,
            total_order::<K>(),
            self.entries().len() >= 1,
            self.towers().len() == self.entries().len(),
            sorted(keys_of(self.entries())),
            well_towered(self.towers(), N as nat),
    {
    }

    /// In a sound storage the link of node `k` on level `i` leads to the
    /// next node whose tower rises above the level, and nowhere where the
    /// node's own tower does not.
    pub proof fn lemma_link(&self, k: int, i: int)
        requires
            self.wf(),
            0 <= k < self.entries().len(),
            0 <= i < N,
        ensures
            self.link(k, i) == hop(self.towers(), k, i),
    {
        let order = self.order@;
        assert(linked(self.arena@, order, self.towers@, k, i));
        lemma_succ_props(self.towers@, k, i);
        match hop(self.towers@, k, i) {
            Some(j) => {
                assert(order[j] == order[j]);
                let found = order.index_of(order[j]);
                assert(0 <= found < order.len() && order[found] == order[j]);
            },
            None => {},
        }
    }

    /// The entries of the nodes on level `level`, as its links run through
    /// them from the head.
    pub fn level_entries(&self, level: usize) -> (chain: Vec<&Entry<K, V>>)
        requires
            self.wf(),
        ensures
            chain@.len() == lane(self.towers(), level as int).len(),
            forall|a: int|
                0 <= a < chain@.len() ==> (#[trigger] chain@[a])@ == self.entries()[lane(
                    self.towers(),
                    level as int,
                )[a]],
    {
        let mut chain: Vec<&Entry<K, V>> = Vec::new();
        if level >= self.levels {
            return chain;
        }
        let ghost towers = self.towers@;
        let ghost order = self.order@;
        let ghost whole = lane_from(towers, 0, level as int);
        let ghost mut walked: Seq<int> = Seq::empty();
        let ghost mut q: int = 0;
        let mut next: Option<usize> = Some(self.head);
        proof {
            lemma_peak_props(towers, 1);
            assert(walked + whole =~= whole);
        }
        loop
            invariant
                self.wf(),
                towers == self.towers@,
                order == self.order@,
                level < N,
                whole == lane_from(towers, 0, level as int),
                0 <= q <= towers.len(),
                next is Some ==> q < towers.len() && order[q] == next.unwrap() && towers[q] > level,
                next is None ==> q == towers.len(),
                walked + lane_from(towers, q, level as int) == whole,
                chain@.len() == walked.len(),
                forall|a: int|
                    0 <= a < walked.len() ==> 0 <= (#[trigger] walked[a]) < order.len()
                        && chain@[a]@ == self.entries()[walked[a]],
            ensures
                next is None,
                q == towers.len(),
                walked + lane_from(towers, q, level as int) == whole,
                chain@.len() == walked.len(),
                forall|a: int|
                    0 <= a < walked.len() ==> 0 <= (#[trigger] walked[a]) < order.len()
                        && chain@[a]@ == self.entries()[walked[a]],
            decreases towers.len() - q + (if next is Some { 1int } else { 0int }),
        {
            match next {
                None => {
                    break ;
                },
                Some(slot) => {
                    proof {
                        assert(occupied(self.arena@, order[q], N as nat));
                        assert(linked(self.arena@, order, towers, q, level as int));
                        lemma_succ_props(towers, q, level as int);
                    }
                    chain.push(self.arena.value(slot));
                    next = self.arena.link(slot, level);
                    proof {
                        let j = succ(towers, q, level as int);
                        assert(lane_from(towers, q, level as int) =~= seq![q] + lane_from(
                            towers,
                            j,
                            level as int,
                        ));
                        assert(walked.push(q) + lane_from(towers, j, level as int) =~= walked
                            + lane_from(towers, q, level as int));
                        walked = walked.push(q);
                        q = j;
                    }
                },
            }
        }
        proof {
            assert(lane_from(towers, q, level as int) =~= Seq::<int>::empty());
            assert(walked =~= whole);
        }
        chain
    }
}

} // verus!

//! The slots that hold a container's nodes.

use crate::node::NodeView;
use crate::node::SkipNode;
use vstd::prelude::*;

verus! {

/// Slots for nodes. A slot is vacant or holds one node; a vacated slot is
/// handed out again before the arena grows.
pub struct Arena<T, const N: usize> {
    slots: Vec<Option<SkipNode<T, N>>>,
    free: Vec<usize>,
}

impl<T, const N: usize> View for Arena<T, N> {
    type V = Seq<Option<NodeView<T>>>;

    closed spec fn view(&self) -> Self::V {
        Seq::new(
            self.slots@.len(),
            |s: int|
                match self.slots@[s] {
                    Some(node) => Some(node@),
                    None => None,
                },
        )
    }
}

impl<T, const N: usize> Arena<T, N> {
    /// The free list names the vacant slots, each once, and every node has
    /// `N` links.
    pub closed spec fn wf(&self) -> bool {
        &&& forall|f: int|
            0 <= f < self.free@.len() ==> (#[trigger] self.free@[f]) < self.slots@.len()
                && self.slots@[self.free@[f] as int] is None
        &&& forall|f: int, g: int|
            0 <= f < g < self.free@.len() ==> #[trigger] self.free@[f] != #[trigger] self.free@[g]
        &&& forall|s: usize|
            s < self.slots@.len() && self.slots@[s as int] is None
                ==> #[trigger] self.free@.contains(s)
        &&& forall|s: int|
            0 <= s < self.slots@.len() && (#[trigger] self.slots@[s]) is Some
                ==> self.slots@[s].unwrap().nexts@.len() == N
    }

    /// In a well-formed arena every node has `N` links.
    pub proof fn lemma_links_len(&self, s: int)
        requires
            self.wf(),
            0 <= s < self@.len(),
            self@[s] is Some,
        ensures
            self@[s].unwrap().links.len() == N,
    {
        assert(self.slots@[s] is Some);
    }

    /// An arena without slots.
    pub fn new() -> (arena: Self)
        ensures
            arena.wf(),
            arena@.len() == 0,
    {
        Arena { slots: Vec::new(), free: Vec::new() }
    }

    /// Puts `node` into a vacant slot and returns the slot.
    pub fn occupy(&mut self, node: SkipNode<T, N>) -> (s: usize)
        requires
            old(self).wf(),
            node@.links.len() == N,
        ensures
            final(self).wf(),
            s < final(self)@.len(),
            s < old(self)@.len() ==> old(self)@[s as int] is None,
            final(self)@ == (if s < old(self)@.len() {
                old(self)@.update(s as int, Some(node@))
            } else {
                old(self)@.push(Some(node@))
            }),
    {
        match self.free.pop() {
            Some(s) => {
                assert(old(self).free@[old(self).free@.len() - 1] == s);
                self.slots[s] = Some(node);
                proof {
                    assert(self@ =~= old(self)@.update(s as int, Some(node@)));
                    assert forall|t: usize|
                        t < self.slots@.len() && self.slots@[t as int]
                            is None implies #[trigger] self.free@.contains(t) by {
                        assert(old(self).free@.contains(t));
                        let f = choose|f: int|
                            0 <= f < old(self).free@.len() && old(self).free@[f] == t;
                        assert(f < old(self).free@.len() - 1);
                        assert(self.free@[f] == t);
                    }
                }
                s
            },
            None => {
                let s: usize = self.slots.len();
                self.slots.push(Some(node));
                proof {
                    assert(self@ =~= old(self)@.push(Some(node@)));
                    assert forall|t: usize|
                        t < self.slots@.len() && self.slots@[t as int]
                            is None implies #[trigger] self.free@.contains(t) by {
                        assert(old(self).free@.contains(t));
                    }
                }
                s
            },
        }
    }

    /// Vacates slot `s` and returns the value of the node that it held.
    pub fn vacate(&mut self, s: usize) -> (value: T)
        requires
            old(self).wf(),
            s < old(self)@.len(),
            old(self)@[s as int] is Some,
        ensures
            final(self).wf(),
            final(self)@ == old(self)@.update(s as int, None),
            value == old(self)@[s as int].unwrap().value,
    {
        let taken: Option<SkipNode<T, N>> = self.slots[s].take();
        self.free.push(s);
        proof {
            assert(self@ =~= old(self)@.update(s as int, None));
            assert forall|t: usize|
                t < self.slots@.len() && self.slots@[t as int]
                    is None implies #[trigger] self.free@.contains(t) by {
                if t == s {
                    assert(self.free@[self.free@.len() - 1] == s);
                } else {
                    assert(old(self).free@.contains(t));
                    let f = choose|f: int|
                        0 <= f < old(self).free@.len() && old(self).free@[f] == t;
                    assert(self.free@[f] == t);
                }
            }
        }
        match taken {
            Some(node) => node.value,
            None => {
                proof {
                    assert(false);
                }
                unreached()
            },
        }
    }

    /// The value in slot `s`.
    pub fn value(&self, s: usize) -> (value: &T)
        requires
            s < self@.len(),
            self@[s as int] is Some,
        ensures
            *value == self@[s as int].unwrap().value,
    {
        match &self.slots[s] {
            Some(node) => &node.value,
            None => {
                proof {
                    assert(false);
                }
                unreached()
            },
        }
    }

    /// The link of the node in slot `s` on level `i`.
    pub fn link(&self, s: usize, i: usize) -> (next: Option<usize>)
        requires
            s < self@.len(),
            self@[s as int] is Some,
            i < self@[s as int].unwrap().links.len(),
        ensures
            next == self@[s as int].unwrap().links[i as int],
    {
        match &self.slots[s] {
            Some(node) => node.nexts[i],
            None => {
                proof {
                    assert(false);
                }
                unreached()
            },
        }
    }

    /// Sets the link of the node in slot `s` on level `i`.
    pub fn set_link(&mut self, s: usize, i: usize, next: Option<usize>)
        requires
            old(self).wf(),
            s < old(self)@.len(),
            old(self)@[s as int] is Some,
            i < old(self)@[s as int].unwrap().links.len(),
        ensures
            final(self).wf(),
            final(self)@ == old(self)@.update(
                s as int,
                Some(
                    NodeView {
                        value: old(self)@[s as int].unwrap().value,
                        links: old(self)@[s as int].unwrap().links.update(i as int, next),
                    },
                ),
            ),
    {
        match &mut self.slots[s] {
            Some(node) => {
                node.nexts[i] = next;
            },
            None => {},
        }
        assert(self@ =~= old(self)@.update(
            s as int,
            Some(
                    NodeView {
                        value: old(self)@[s as int].unwrap().value,
                        links: old(self)@[s as int].unwrap().links.update(i as int, next),
                    },
                ),
        ));
    }

    /// Puts `value` into the node in slot `s` and returns the value that it held.
    pub fn replace_value(&mut self, s: usize, value: T) -> (previous: T)
        requires
            old(self).wf(),
            s < old(self)@.len(),
            old(self)@[s as int] is Some,
        ensures
            final(self).wf(),
            final(self)@ == old(self)@.update(
                s as int,
                Some(NodeView { value, links: old(self)@[s as int].unwrap().links }),
            ),
            previous == old(self)@[s as int].unwrap().value,
    {
        let mut held: T = value;
        match &mut self.slots[s] {
            Some(node) => {
                std::mem::swap(&mut node.value, &mut held);
            },
            None => {},
        }
        assert(self@ =~= old(self)@.update(
            s as int,
            Some(NodeView { value, links: old(self)@[s as int].unwrap().links }),
        ));
        held
    }
}

} // verus!

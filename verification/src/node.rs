//! The nodes of a skip list.

use vstd::prelude::*;

verus! {

/// A stored value with its forward links, one for each of the `N` levels.
/// A link holds the arena slot of the next node on that level.
pub struct SkipNode<T, const N: usize> {
    pub value: T,
    pub nexts: Vec<Option<usize>>,
}

/// What a node holds: its value, and for each level the slot that its link
/// names.
pub struct NodeView<T> {
    pub value: T,
    pub links: Seq<Option<usize>>,
}

impl<T, const N: usize> View for SkipNode<T, N> {
    type V = NodeView<T>;

    open spec fn view(&self) -> NodeView<T> {
        NodeView { value: self.value, links: self.nexts@ }
    }
}

/// `n` absent links.
pub open spec fn no_links(n: nat) -> Seq<Option<usize>> {
    Seq::new(n, |i: int| None)
}

impl<T, const N: usize> SkipNode<T, N> {
    /// A node that holds `value` and is linked nowhere.
    pub fn new(value: T) -> (node: Self)
        ensures
            node@ == (NodeView { value, links: no_links(N as nat) }),
    {
        let mut nexts: Vec<Option<usize>> = Vec::new();
        let mut i: usize = 0;
        while i < N
            invariant
                i <= N,
                nexts@ =~= no_links(i as nat),
            decreases N - i,
        {
            nexts.push(None);
            i = i + 1;
        }
        SkipNode { value, nexts }
    }
}

} // verus!

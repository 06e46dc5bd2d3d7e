//! The way from a node up to the root.
use vstd::prelude::*;
use crate::node::NodeRef;
use crate::tree::{Tree, TreeView};

verus! {

/// Walks from a node up to the topmost node that its parent links still
/// reach, the starting node included.
///
/// The iterator holds no borrow of the tree: every step is given the tree, so
/// the nodes it yields may be changed between steps.
#[derive(Clone, Copy, Debug)]
pub struct NodeToRootIterator {
    node: Option<NodeRef>,
}

impl NodeToRootIterator {
    /// The node that the next step looks at.
    pub closed spec fn current(self) -> Option<NodeRef> {
        self.node
    }

    /// Everything the iterator is still to yield over `tree`.
    pub open spec fn remaining<T>(self, tree: TreeView<T>) -> Seq<NodeRef> {
        match self.current() {
            Some(node) => tree.ancestors(node),
            None => Seq::empty(),
        }
    }

    /// Starts at `node`.
    pub fn new(node: NodeRef) -> (iter: Self)
        ensures
            iter.current() == Some(node),
    {
        NodeToRootIterator { node: Some(node) }
    }

    /// Yields the current node and steps to its parent.
    ///
    /// The walk ends, without an error, at a node without a parent and at a
    /// node whose parent is gone.
    pub fn next<T>(&mut self, tree: &Tree<T>) -> (item: Option<NodeRef>)
        ensures
            item == tree@.upgrade(old(self).current()),
            final(self).current() == match item {
                Some(node) => tree@.parent(node),
                None => None,
            },
            tree.wf() ==> old(self).remaining(tree@) == match item {
                Some(node) => seq![node] + final(self).remaining(tree@),
                None => Seq::empty(),
            },
    {
        let Some(current) = self.node else {
            return None;
        };
        let Some(node) = tree.upgrade(current) else {
            self.node = None;
            return None;
        };
        self.node = match node.get_parent() {
            Some(parent) => if tree.contains(parent) {
                Some(parent)
            } else {
                None
            },
            None => None,
        };
        proof {
            if tree.wf() {
                tree@.lemma_ancestors_unfold(current);
            }
        }
        Some(current)
    }
}

impl<T> Tree<T> {
    /// An iterator from `node` up to the root.
    pub fn iter_to_root_from_node(&self, node: NodeRef) -> (iter: NodeToRootIterator)
        ensures
            iter.current() == Some(node),
            iter.remaining(self@) == self@.ancestors(node),
    {
        NodeToRootIterator::new(node)
    }

    /// The nodes from `node` up to the topmost one that parent links reach, in
    /// that order.
    pub fn ancestors(&self, node: NodeRef) -> (chain: Vec<NodeRef>)
        requires
            self.wf(),
        ensures
            chain@ == self@.ancestors(node),
    {
        let mut chain: Vec<NodeRef> = Vec::new();
        let mut iter = self.iter_to_root_from_node(node);
        loop
            invariant
                self.wf(),
                chain@ + iter.remaining(self@) == self@.ancestors(node),
            ensures
                chain@ == self@.ancestors(node),
            decreases iter.remaining(self@).len(),
        {
            match iter.next(self) {
                Some(item) => {
                    proof {
                        assert(chain@.push(item) + iter.remaining(self@) =~= chain@ + (seq![item]
                            + iter.remaining(self@)));
                    }
                    chain.push(item);
                },
                None => {
                    assert(chain@ + Seq::<NodeRef>::empty() =~= chain@);
                    break ;
                },
            }
        }
        chain
    }
}

impl<T> TreeView<T> {
    /// Two trees agree on the nodes created no later than `r`: the same of
    /// them are alive and hold the same parent links.
    pub open spec fn same_links_up_to(self, other: Self, r: NodeRef) -> bool {
        &&& forall|x: NodeRef|
            x.index <= r.index ==> (#[trigger] self.contains(x) <==> other.contains(x))
        &&& forall|x: NodeRef|
            x.index <= r.index && #[trigger] self.contains(x) ==> self.node(x).parent
                == other.node(x).parent
    }

    /// The chain from a living node is the node followed by the chain from its
    /// parent, if that resolves.
    pub proof fn lemma_ancestors_unfold(self, r: NodeRef)
        requires
            self.wf(),
            self.contains(r),
        ensures
            self.ancestors(r) == match self.parent(r) {
                Some(p) => seq![r] + self.ancestors(p),
                None => seq![r],
            },
            self.ancestors(r).len() > 0,
            self.ancestors(r)[0] == r,
    {
        assert(self.links_wf(r));
    }

    /// Every node of a chain is alive, and none was created after the node
    /// that the chain starts at.
    pub proof fn lemma_ancestors_alive(self, r: NodeRef)
        ensures
            forall|i: int|
                0 <= i < self.ancestors(r).len() ==> self.contains(#[trigger] self.ancestors(r)[i])
                    && self.ancestors(r)[i].index <= r.index,
        decreases r.index,
    {
        if self.contains(r) {
            match self.node(r).parent {
                Some(p) => {
                    if self.contains(p) && p.index < r.index {
                        self.lemma_ancestors_alive(p);
                        assert forall|i: int| 0 <= i < self.ancestors(r).len() implies self.contains(
                            #[trigger] self.ancestors(r)[i],
                        ) && self.ancestors(r)[i].index <= r.index by {
                            if i > 0 {
                                assert(self.ancestors(r)[i] == self.ancestors(p)[i - 1]);
                            }
                        }
                    }
                },
                None => {},
            }
        }
    }

    /// Each node of a chain but the last is followed by its parent, and the
    /// last has no parent that resolves.
    pub proof fn lemma_ancestors_linked(self, r: NodeRef)
        requires
            self.wf(),
        ensures
            forall|i: int|
                0 <= i < self.ancestors(r).len() ==> self.parent(#[trigger] self.ancestors(r)[i])
                    == if i + 1 < self.ancestors(r).len() {
                    Some(self.ancestors(r)[i + 1])
                } else {
                    None::<NodeRef>
                },
        decreases r.index,
    {
        if self.contains(r) {
            self.lemma_ancestors_unfold(r);
            assert(self.links_wf(r));
            match self.parent(r) {
                Some(p) => {
                    self.lemma_ancestors_linked(p);
                    self.lemma_ancestors_unfold(p);
                    assert forall|i: int| 0 <= i < self.ancestors(r).len() implies self.parent(
                        #[trigger] self.ancestors(r)[i],
                    ) == if i + 1 < self.ancestors(r).len() {
                        Some(self.ancestors(r)[i + 1])
                    } else {
                        None::<NodeRef>
                    } by {
                        if i > 0 {
                            assert(self.ancestors(r)[i] == self.ancestors(p)[i - 1]);
                            if i + 1 < self.ancestors(r).len() {
                                assert(self.ancestors(r)[i + 1] == self.ancestors(p)[i]);
                            }
                        } else {
                            assert(self.ancestors(r)[1] == self.ancestors(p)[0]);
                        }
                    }
                },
                None => {},
            }
        }
    }

    /// A chain depends on the parent links of the nodes created no later than
    /// its start, and on nothing else: not on payloads, not on children lists,
    /// not on younger nodes.
    pub proof fn lemma_ancestors_same_links(self, other: Self, r: NodeRef)
        requires
            self.same_links_up_to(other, r),
        ensures
            self.ancestors(r) == other.ancestors(r),
        decreases r.index,
    {
        if self.contains(r) {
            assert(other.contains(r));
            match self.node(r).parent {
                Some(p) => {
                    if p.index < r.index {
                        assert(self.contains(p) <==> other.contains(p));
                        if self.contains(p) {
                            assert(self.same_links_up_to(other, p));
                            self.lemma_ancestors_same_links(other, p);
                        }
                    }
                },
                None => {},
            }
        } else {
            assert(!other.contains(r));
        }
    }

    /// What follows a node in a chain is the chain of that node.
    pub proof fn lemma_ancestors_suffix(self, r: NodeRef, i: int)
        requires
            self.wf(),
            0 <= i < self.ancestors(r).len(),
        ensures
            self.ancestors(r).skip(i) == self.ancestors(self.ancestors(r)[i]),
        decreases r.index,
    {
        assert(self.contains(r));
        self.lemma_ancestors_unfold(r);
        assert(self.links_wf(r));
        if i == 0 {
            assert(self.ancestors(r).skip(0) =~= self.ancestors(r));
        } else {
            let p = self.parent(r)->0;
            self.lemma_ancestors_suffix(p, i - 1);
            assert(self.ancestors(r).skip(i) =~= self.ancestors(p).skip(i - 1));
            assert(self.ancestors(r)[i] == self.ancestors(p)[i - 1]);
        }
    }

    /// Up a chain the nodes get older: no node occurs twice.
    pub proof fn lemma_ancestors_distinct(self, r: NodeRef)
        requires
            self.wf(),
        ensures
            forall|i: int, j: int|
                0 <= i < j < self.ancestors(r).len() ==> (#[trigger] self.ancestors(r)[j]).index < (
                #[trigger] self.ancestors(r)[i]).index,
            self.ancestors(r).no_duplicates(),
    {
        assert forall|i: int, j: int| 0 <= i < j < self.ancestors(r).len() implies (
        #[trigger] self.ancestors(r)[j]).index < (#[trigger] self.ancestors(r)[i]).index by {
            let start = self.ancestors(r)[i];
            self.lemma_ancestors_suffix(r, i);
            assert(self.ancestors(r)[j] == self.ancestors(r).skip(i)[j - i]);
            self.lemma_ancestors_alive(r);
            self.lemma_ancestors_unfold(start);
            assert(self.links_wf(start));
            let p = self.parent(start)->0;
            self.lemma_ancestors_alive(p);
            assert(self.ancestors(start)[j - i] == self.ancestors(p)[j - i - 1]);
        }
    }

    /// Walking up from a node twice over the same tree yields the same nodes
    /// in the same order: what an iterator yields is decided by the tree and
    /// the starting node alone.
    pub proof fn lemma_iteration_repeatable(
        self,
        first: NodeToRootIterator,
        second: NodeToRootIterator,
        node: NodeRef,
    )
        requires
            first.current() == Some(node),
            second.current() == Some(node),
        ensures
            first.remaining(self) == second.remaining(self),
            first.remaining(self) == self.ancestors(node),
    {
    }

    /// A living child is attached exactly when its living parent is.
    pub proof fn lemma_attached_with_parent(self, child: NodeRef, parent: NodeRef)
        requires
            self.wf(),
            self.contains(child),
            self.parent(child) == Some(parent),
        ensures
            self.attached(child) <==> self.attached(parent),
    {
        self.lemma_ancestors_unfold(child);
        self.lemma_ancestors_unfold(parent);
        assert(self.ancestors(child).last() == self.ancestors(parent).last());
    }
}

} // verus!

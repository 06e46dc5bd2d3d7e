//! The vertices of a tree and the handles that name them.
use vstd::prelude::*;

verus! {

/// Handle to a node of a [`crate::tree::Tree`]: the position of the node's slot.
///
/// A handle held by a parent for its child keeps the child alive; the handle a
/// child holds for its parent does not, and has to be resolved against the tree
/// before use.
#[derive(Clone, Copy, Debug, PartialEq, Eq, Structural, Hash)]
pub struct NodeRef {
    pub index: usize,
}

/// A tree vertex: its children in attachment order, its payload, and a weak
/// handle to its parent.
#[derive(Debug)]
pub struct Node<T> {
    /// Empty for a leaf.
    pub children: Vec<NodeRef>,
    pub data: T,
    /// `None` for a root and for a node that was taken out of its tree.
    pub parent: Option<NodeRef>,
}

/// What a node is, as mathematics.
pub struct NodeView<T> {
    pub children: Seq<NodeRef>,
    pub data: T,
    pub parent: Option<NodeRef>,
}

impl<T> View for Node<T> {
    type V = NodeView<T>;

    open spec fn view(&self) -> NodeView<T> {
        NodeView { children: self.children@, data: self.data, parent: self.parent }
    }
}

impl<T> Node<T> {
    /// Creates a disconnected node: no parent, no children.
    pub fn new(data: T) -> (node: Self)
        ensures
            node@ == (NodeView { children: Seq::<NodeRef>::empty(), data, parent: None }),
    {
        Node { children: Vec::new(), data, parent: None }
    }

    /// A snapshot of the children, in attachment order.
    pub fn get_children(&self) -> (children: Vec<NodeRef>)
        ensures
            children@ == self@.children,
    {
        let mut snapshot: Vec<NodeRef> = Vec::new();
        let mut i: usize = 0;
        while i < self.children.len()
            invariant
                i <= self.children.len(),
                snapshot@ == self.children@.take(i as int),
            decreases self.children.len() - i,
        {
            snapshot.push(self.children[i]);
            i += 1;
        }
        assert(self.children@.take(self.children.len() as int) == self.children@);
        snapshot
    }

    /// The weak handle to the parent, if the node has one. The parent may be
    /// gone: resolve the handle against the tree.
    pub fn get_parent(&self) -> (parent: Option<NodeRef>)
        ensures
            parent == self@.parent,
    {
        self.parent
    }

    /// The child at `index`, or `None` when `index` is out of bounds.
    pub fn get_child_at(&self, index: usize) -> (child: Option<NodeRef>)
        ensures
            child == if index < self@.children.len() {
                Some(self@.children[index as int])
            } else {
                None
            },
    {
        if index < self.children.len() {
            Some(self.children[index])
        } else {
            None
        }
    }

    /// Appends `child` to the children. Does not touch the child's parent link.
    pub(crate) fn attach_child(&mut self, child: NodeRef)
        ensures
            final(self)@ == (NodeView { children: old(self)@.children.push(child), ..old(self)@ }),
    {
        self.children.push(child);
    }

    /// Points the parent link at `parent`.
    pub(crate) fn attach_parent(&mut self, parent: NodeRef)
        ensures
            final(self)@ == (NodeView { parent: Some(parent), ..old(self)@ }),
    {
        self.parent = Some(parent);
    }
}

} // verus!

//! A tree whose nodes own their children and know their parent.
use vstd::prelude::*;
use crate::node::{Node, NodeRef, NodeView};

verus! {

/// Why a tree operation was refused.
#[derive(Clone, Copy, Debug, PartialEq, Eq, Structural)]
pub enum TreeError {
    /// The tree has a root already.
    AlreadyHasRoot,
    /// The node is the tree's root and yet has a parent: the tree is corrupt.
    RootHasParent,
    /// The node is not the tree's root and has no parent: it is in no tree.
    NotRootNoParent,
    /// The node's parent is gone.
    ParentGone,
}

impl TreeError {
    /// What went wrong, in words.
    pub open spec fn text(self) -> Seq<char> {
        match self {
            TreeError::AlreadyHasRoot => "There is a root already!"@,
            TreeError::RootHasParent => "Node to be removed is a root of tree, but has a parent."@,
            TreeError::NotRootNoParent =>
                "Node to be removed is not a root of tree, but has no parent."@,
            TreeError::ParentGone => "Node to be removed has a parent that is gone."@,
        }
    }

    /// What went wrong, in words.
    pub fn message(&self) -> (message: &'static str)
        ensures
            message@ == self.text(),
    {
        match self {
            TreeError::AlreadyHasRoot => "There is a root already!",
            TreeError::RootHasParent => "Node to be removed is a root of tree, but has a parent.",
            TreeError::NotRootNoParent =>
                "Node to be removed is not a root of tree, but has no parent.",
            TreeError::ParentGone => "Node to be removed has a parent that is gone.",
        }
    }
}

/// What a tree is, as mathematics: one slot per node ever created, `None`
/// once the node is gone, and the root's handle.
pub struct TreeView<T> {
    pub slots: Seq<Option<NodeView<T>>>,
    pub root: Option<NodeRef>,
}

impl<T> TreeView<T> {
    /// The tree without any node.
    pub open spec fn empty() -> Self {
        TreeView { slots: Seq::empty(), root: None }
    }

    /// `r` names a node that is alive.
    pub open spec fn contains(self, r: NodeRef) -> bool {
        r.index < self.slots.len() && self.slots[r.index as int] is Some
    }

    /// The node that `r` names.
    pub open spec fn node(self, r: NodeRef) -> NodeView<T> {
        self.slots[r.index as int].unwrap()
    }

    /// The handle that the next node to be created gets.
    pub open spec fn next_ref(self) -> NodeRef {
        NodeRef { index: self.slots.len() as usize }
    }

    /// A weak handle resolved: the handle itself while its node is alive.
    pub open spec fn upgrade(self, weak: Option<NodeRef>) -> Option<NodeRef> {
        match weak {
            Some(p) => if self.contains(p) { Some(p) } else { None },
            None => None,
        }
    }

    /// The parent of `r`, resolved.
    pub open spec fn parent(self, r: NodeRef) -> Option<NodeRef> {
        self.upgrade(self.node(r).parent)
    }

    /// `c` is alive and names `r` as its parent.
    pub open spec fn child_link_wf(self, r: NodeRef, c: NodeRef) -> bool {
        self.contains(c) && self.node(c).parent == Some(r)
    }

    /// The links of `r` are consistent: its children are alive, distinct and
    /// point back at it; its parent was created before it and, while alive,
    /// lists it.
    pub open spec fn links_wf(self, r: NodeRef) -> bool {
        let n = self.node(r);
        &&& n.children.no_duplicates()
        &&& forall|i: int|
            0 <= i < n.children.len() ==> self.child_link_wf(r, #[trigger] n.children[i])
        &&& match n.parent {
            Some(p) => p.index < r.index && (self.contains(p) ==> self.node(p).children.contains(
                r,
            )),
            None => true,
        }
    }

    /// Well-formedness: at most one root, which has no parent, and consistent
    /// links everywhere.
    pub open spec fn wf(self) -> bool {
        &&& self.slots.len() <= usize::MAX
        &&& match self.root {
            Some(r) => self.contains(r) && self.node(r).parent is None,
            None => true,
        }
        &&& forall|r: NodeRef| #[trigger] self.contains(r) ==> self.links_wf(r)
    }

    /// The nodes from `r` up to the topmost one that can still be reached
    /// through parent links, `r` included. Empty when `r` is gone.
    pub open spec fn ancestors(self, r: NodeRef) -> Seq<NodeRef>
        decreases r.index,
    {
        if !self.contains(r) {
            Seq::empty()
        } else {
            match self.node(r).parent {
                Some(p) => if self.contains(p) && p.index < r.index {
                    seq![r] + self.ancestors(p)
                } else {
                    seq![r]
                },
                None => seq![r],
            }
        }
    }

    /// `r` is alive and its chain of parents ends at the root.
    pub open spec fn attached(self, r: NodeRef) -> bool {
        self.contains(r) && self.root == Some(self.ancestors(r).last())
    }

    /// The tree after a first node with `data` became its root.
    pub open spec fn with_root(self, data: T) -> Self {
        TreeView {
            slots: self.slots.push(
                Some(NodeView { children: Seq::empty(), data, parent: None }),
            ),
            root: Some(self.next_ref()),
        }
    }

    /// The tree after a new node with `data` became the last child of `parent`.
    pub open spec fn with_child(self, parent: NodeRef, data: T) -> Self {
        let p = self.node(parent);
        TreeView {
            slots: self.slots.update(
                parent.index as int,
                Some(NodeView { children: p.children.push(self.next_ref()), ..p }),
            ).push(Some(NodeView { children: Seq::empty(), data, parent: Some(parent) })),
            root: self.root,
        }
    }

    /// The tree after `node` left the children of `parent` and lost its
    /// parent link. The children of `node` stay below it.
    pub open spec fn without_child(self, parent: NodeRef, node: NodeRef) -> Self {
        let p = self.node(parent);
        let n = self.node(node);
        TreeView {
            slots: self.slots.update(
                parent.index as int,
                Some(NodeView { children: p.children.remove(p.children.index_of(node)), ..p }),
            ).update(node.index as int, Some(NodeView { parent: None, ..n })),
            root: self.root,
        }
    }

    /// The tree with the payload of `r` replaced.
    pub open spec fn with_data(self, r: NodeRef, data: T) -> Self {
        TreeView {
            slots: self.slots.update(r.index as int, Some(NodeView { data, ..self.node(r) })),
            root: self.root,
        }
    }

    /// The tree after the node `r` is gone.
    pub open spec fn without_node(self, r: NodeRef) -> Self {
        TreeView { slots: self.slots.update(r.index as int, None), root: self.root }
    }

    /// The tree without its root slot filled; the nodes stay as they are.
    pub open spec fn without_root(self) -> Self {
        TreeView { slots: self.slots, root: None }
    }

    /// What removing the subtree at `node` does: the tree afterwards, or the
    /// reason why the tree stays as it is.
    pub open spec fn removal(self, node: NodeRef) -> Result<Self, TreeError> {
        match self.node(node).parent {
            None => if self.root == Some(node) {
                Ok(self.without_root())
            } else {
                Err(TreeError::NotRootNoParent)
            },
            Some(p) => if self.root == Some(node) {
                Err(TreeError::RootHasParent)
            } else if self.contains(p) {
                Ok(self.without_child(p, node))
            } else {
                Err(TreeError::ParentGone)
            },
        }
    }

    /// `r` is alive, is not the root, and no living parent lists it: nothing
    /// in the tree keeps it.
    pub open spec fn detached(self, r: NodeRef) -> bool {
        self.contains(r) && self.root != Some(r) && self.parent(r) is None
    }
}

/// A tree of nodes that own their children and know their parent.
///
/// Nodes live in slots of the tree and are named by [`NodeRef`] handles. A
/// node that leaves the tree keeps its slot, its payload and its children
/// until it is released.
#[derive(Debug)]
pub struct Tree<T> {
    nodes: Vec<Option<Node<T>>>,
    root: Option<NodeRef>,
}

impl<T> View for Tree<T> {
    type V = TreeView<T>;

    closed spec fn view(&self) -> TreeView<T> {
        TreeView {
            slots: Seq::new(
                self.nodes@.len(),
                |i: int|
                    match self.nodes@[i] {
                        Some(n) => Some(n@),
                        None => None,
                    },
            ),
            root: self.root,
        }
    }
}

impl<T> Default for Tree<T> {
    /// An empty tree.
    fn default() -> (tree: Self)
        ensures
            tree@ == TreeView::<T>::empty(),
            tree.wf(),
    {
        Tree::new()
    }
}

impl<T> Tree<T> {
    /// Well-formedness of the tree: that of its view.
    pub open spec fn wf(&self) -> bool {
        self@.wf()
    }

    /// Creates an empty tree.
    pub fn new() -> (tree: Self)
        ensures
            tree@ == TreeView::<T>::empty(),
            tree.wf(),
    {
        let tree = Tree { nodes: Vec::new(), root: None };
        assert(tree@.slots =~= Seq::empty());
        tree
    }

    /// The number of slots: of nodes ever created in this tree.
    pub fn len(&self) -> (slots: usize)
        ensures
            slots == self@.slots.len(),
    {
        self.nodes.len()
    }

    /// The root's handle, if the tree has a root.
    pub fn get_root(&self) -> (root: Option<NodeRef>)
        ensures
            root == self@.root,
    {
        self.root
    }

    /// Whether `node` names a node that is alive.
    pub fn contains(&self, node: NodeRef) -> (alive: bool)
        ensures
            alive == self@.contains(node),
    {
        node.index < self.nodes.len() && self.nodes[node.index].is_some()
    }

    /// Read access to a living node.
    pub fn node(&self, node: NodeRef) -> (n: &Node<T>)
        requires
            self@.contains(node),
        ensures
            n@ == self@.node(node),
    {
        self.nodes[node.index].as_ref().unwrap()
    }

    /// Resolves a weak handle: the node while it is alive, `None` once it is
    /// gone.
    pub fn upgrade(&self, weak: NodeRef) -> (n: Option<&Node<T>>)
        ensures
            match n {
                Some(n) => self@.contains(weak) && n@ == self@.node(weak),
                None => !self@.contains(weak),
            },
    {
        if weak.index < self.nodes.len() {
            self.nodes[weak.index].as_ref()
        } else {
            None
        }
    }

    /// Write access to the payload of a living node.
    pub fn data_mut(&mut self, node: NodeRef) -> (data: &mut T)
        requires
            old(self)@.contains(node),
        ensures
            *data == old(self)@.node(node).data,
            final(self)@ == old(self)@.with_data(node, *final(data)),
            old(self).wf() ==> final(self).wf(),
    {
        let ghost before = self@;
        let slot = &mut self.nodes[node.index];
        let n = slot.as_mut().unwrap();
        let data = &mut n.data;
        proof {
            assert(after_borrow(self)@.slots =~= before.with_data(node, *final(data)).slots);
            if before.wf() {
                before.lemma_with_data_wf(node, *final(data));
            }
        }
        data
    }

    /// Creates a node from `data` and makes it the root.
    ///
    /// Fails with [`TreeError::AlreadyHasRoot`], leaving the tree as it is,
    /// when the tree has a root.
    pub fn create_node_and_set_root(&mut self, data: T) -> (res: Result<NodeRef, TreeError>)
        requires
            old(self).wf(),
        ensures
            final(self).wf(),
            match res {
                Ok(root) => {
                    &&& old(self)@.root is None
                    &&& old(self)@.slots.len() < usize::MAX
                    &&& root == old(self)@.next_ref()
                    &&& final(self)@ == old(self)@.with_root(data)
                },
                Err(e) => {
                    &&& e == TreeError::AlreadyHasRoot
                    &&& old(self)@.root is Some
                    &&& final(self)@ == old(self)@
                },
            },
    {
        if self.root.is_some() {
            return Err(TreeError::AlreadyHasRoot);
        }
        let ghost before = self@;
        let root = NodeRef { index: self.nodes.len() };
        self.nodes.push(Some(Node::new(data)));
        self.root = Some(root);
        let slots = self.nodes.len();
        proof {
            assert(self@.slots =~= before.with_root(data).slots);
            before.lemma_with_root_wf(data);
        }
        Ok(root)
    }

    /// Creates a node from `data` and makes it the root, or returns `None`,
    /// leaving the tree as it is, when the tree has a root.
    pub fn create_and_set_root(&mut self, data: T) -> (res: Option<NodeRef>)
        requires
            old(self).wf(),
        ensures
            final(self).wf(),
            match res {
                Some(root) => {
                    &&& old(self)@.root is None
                    &&& root == old(self)@.next_ref()
                    &&& final(self)@ == old(self)@.with_root(data)
                },
                None => old(self)@.root is Some && final(self)@ == old(self)@,
            },
    {
        match self.create_node_and_set_root(data) {
            Ok(root) => Some(root),
            Err(_) => None,
        }
    }

    /// Creates a node from `data` and attaches it as the last child of
    /// `parent`, linked both ways. Returns the new node's handle.
    pub fn attach_child(&mut self, parent: NodeRef, data: T) -> (child: NodeRef)
        requires
            old(self).wf(),
            old(self)@.contains(parent),
        ensures
            final(self).wf(),
            old(self)@.slots.len() < usize::MAX,
            child == old(self)@.next_ref(),
            final(self)@ == old(self)@.with_child(parent, data),
    {
        let ghost before = self@;
        let child = NodeRef { index: self.nodes.len() };
        match &mut self.nodes[parent.index] {
            Some(p) => {
                p.attach_child(child);
            },
            None => {},
        }
        let mut node = Node::new(data);
        node.attach_parent(parent);
        self.nodes.push(Some(node));
        let slots = self.nodes.len();
        proof {
            assert(self@.slots =~= before.with_child(parent, data).slots);
            before.lemma_with_child_wf(parent, data);
        }
        child
    }

    /// Takes the subtree at `node` out of the tree.
    ///
    /// The root leaves by emptying the root slot; any other node leaves the
    /// children of its parent and loses its parent link. The children of
    /// `node` stay below it. A node that is neither the root nor has a parent,
    /// or whose parent is gone, is reported and the tree stays as it is.
    pub fn remove_subtree(&mut self, node: NodeRef) -> (res: Result<(), TreeError>)
        requires
            old(self).wf(),
            old(self)@.contains(node),
        ensures
            final(self).wf(),
            match res {
                Ok(()) => old(self)@.removal(node) == Ok::<TreeView<T>, TreeError>(final(self)@),
                Err(e) => old(self)@.removal(node) == Err::<TreeView<T>, TreeError>(e)
                    && final(self)@ == old(self)@,
            },
    {
        let is_root = match self.root {
            Some(root) => root == node,
            None => false,
        };
        let parent = self.node(node).get_parent();
        match (is_root, parent) {
            (true, None) => {
                proof {
                    self@.lemma_without_root_wf();
                }
                self.root = None;
                Ok(())
            },
            (true, Some(_)) => Err(TreeError::RootHasParent),
            (false, None) => Err(TreeError::NotRootNoParent),
            (false, Some(parent)) => {
                if !self.contains(parent) {
                    return Err(TreeError::ParentGone);
                }
                let ghost before = self@;
                proof {
                    assert(before.links_wf(node));
                }
                self.remove_child(parent, node);
                let ghost between = self@;
                match &mut self.nodes[node.index] {
                    Some(n) => {
                        n.parent = None;
                    },
                    None => {},
                }
                proof {
                    assert(between.node(node) == before.node(node));
                    assert(self@.slots =~= between.slots.update(
                        node.index as int,
                        Some(NodeView { parent: None, ..between.node(node) }),
                    ));
                    assert(self@.slots =~= before.without_child(parent, node).slots);
                    before.lemma_without_child_wf(parent, node);
                }
                Ok(())
            },
        }
    }

    /// Finds `child` among the children of `parent` by identity and takes it
    /// out of the list.
    fn remove_child(&mut self, parent: NodeRef, child: NodeRef)
        requires
            old(self)@.contains(parent),
            old(self)@.node(parent).children.contains(child),
            old(self)@.node(parent).children.no_duplicates(),
        ensures
            final(self)@.root == old(self)@.root,
            final(self).nodes@.len() == old(self).nodes@.len(),
            final(self)@.slots == old(self)@.slots.update(
                parent.index as int,
                Some(
                    NodeView {
                        children: old(self)@.node(parent).children.remove(
                            old(self)@.node(parent).children.index_of(child),
                        ),
                        ..old(self)@.node(parent)
                    },
                ),
            ),
    {
        let ghost before = self@;
        let ghost children = before.node(parent).children;
        let mut index: usize = 0;
        {
            let p = self.node(parent);
            while index < p.children.len() && p.children[index] != child
                invariant
                    p@.children == children,
                    children.contains(child),
                    index <= children.len(),
                    forall|j: int| 0 <= j < index ==> children[j] != child,
                decreases children.len() - index,
            {
                index += 1;
            }
        }
        assert(index < children.len() && children[index as int] == child);
        assert(children.index_of(child) == index);
        match &mut self.nodes[parent.index] {
            Some(p) => {
                p.children.remove(index);
            },
            None => {},
        }
        assert(self@.slots =~= before.slots.update(
            parent.index as int,
            Some(NodeView { children: children.remove(index as int), ..before.node(parent) }),
        ));
    }

    /// Lets go of a node that nothing in the tree keeps: the node is gone, its
    /// payload is handed back, and the handles that its children hold for it
    /// no longer resolve. Any other node stays, and `None` is returned.
    pub fn release(&mut self, node: NodeRef) -> (payload: Option<T>)
        requires
            old(self).wf(),
        ensures
            final(self).wf(),
            match payload {
                Some(data) => {
                    &&& old(self)@.detached(node)
                    &&& data == old(self)@.node(node).data
                    &&& final(self)@ == old(self)@.without_node(node)
                },
                None => !old(self)@.detached(node) && final(self)@ == old(self)@,
            },
    {
        if !self.contains(node) {
            return None;
        }
        let is_root = match self.root {
            Some(root) => root == node,
            None => false,
        };
        if is_root {
            return None;
        }
        let kept = match self.node(node).get_parent() {
            Some(parent) => self.contains(parent),
            None => false,
        };
        if kept {
            return None;
        }
        let ghost before = self@;
        let gone = self.nodes[node.index].take();
        proof {
            assert(self@.slots =~= before.without_node(node).slots);
            before.lemma_without_node_wf(node);
        }
        match gone {
            Some(n) => Some(n.data),
            None => None,
        }
    }
}

impl<T> TreeView<T> {
    /// Installing a root in a tree without one keeps the tree well-formed.
    pub proof fn lemma_with_root_wf(self, data: T)
        requires
            self.wf(),
            self.root is None,
            self.slots.len() < usize::MAX,
        ensures
            self.with_root(data).wf(),
    {
        let after = self.with_root(data);
        let root = self.next_ref();
        assert forall|r: NodeRef| #[trigger] after.contains(r) implies after.links_wf(r) by {
            if r != root {
                assert(self.contains(r));
                assert(self.links_wf(r));
                assert(after.node(r) == self.node(r));
                assert forall|i: int| 0 <= i < after.node(r).children.len() implies after.child_link_wf(
                    r,
                    #[trigger] after.node(r).children[i],
                ) by {
                    assert(self.child_link_wf(r, self.node(r).children[i]));
                }
            }
        }
    }

    /// Attaching a new child keeps the tree well-formed.
    pub proof fn lemma_with_child_wf(self, parent: NodeRef, data: T)
        requires
            self.wf(),
            self.contains(parent),
            self.slots.len() < usize::MAX,
        ensures
            self.with_child(parent, data).wf(),
    {
        let after = self.with_child(parent, data);
        let child = self.next_ref();
        assert(self.links_wf(parent));
        assert forall|r: NodeRef| #[trigger] after.contains(r) implies after.links_wf(r) by {
            if r == child {
                assert(after.node(parent).children.last() == child);
            } else {
                assert(self.contains(r));
                assert(self.links_wf(r));
                let n = after.node(r);
                assert forall|i: int| 0 <= i < n.children.len() implies after.child_link_wf(
                    r,
                    #[trigger] n.children[i],
                ) by {
                    if r == parent && i == n.children.len() - 1 {
                    } else {
                        assert(n.children[i] == self.node(r).children[i]);
                        assert(self.child_link_wf(r, self.node(r).children[i]));
                    }
                }
                if r == parent {
                    assert forall|i: int, j: int|
                        0 <= i < n.children.len() && 0 <= j < n.children.len() && i != j implies n.children[i]
                        != n.children[j] by {
                        if i < n.children.len() - 1 {
                            assert(self.child_link_wf(r, self.node(r).children[i]));
                        }
                        if j < n.children.len() - 1 {
                            assert(self.child_link_wf(r, self.node(r).children[j]));
                        }
                    }
                }
                match n.parent {
                    Some(p) => {
                        if after.contains(p) {
                            assert(self.contains(p));
                            let k = choose|k: int|
                                0 <= k < self.node(p).children.len() && self.node(p).children[k]
                                    == r;
                            assert(after.node(p).children[k] == r);
                        }
                    },
                    None => {},
                }
            }
        }
    }

    /// Taking a child out of its parent's list keeps the tree well-formed.
    pub proof fn lemma_without_child_wf(self, parent: NodeRef, node: NodeRef)
        requires
            self.wf(),
            self.contains(node),
            self.contains(parent),
            self.node(node).parent == Some(parent),
            self.root != Some(node),
        ensures
            self.without_child(parent, node).wf(),
    {
        let after = self.without_child(parent, node);
        assert(self.links_wf(node));
        assert(self.links_wf(parent));
        let siblings = self.node(parent).children;
        let at = siblings.index_of(node);
        assert(0 <= at < siblings.len() && siblings[at] == node);
        assert forall|r: NodeRef| #[trigger] after.contains(r) implies after.links_wf(r) by {
            assert(self.contains(r));
            assert(self.links_wf(r));
            let n = after.node(r);
            assert forall|i: int| 0 <= i < n.children.len() implies after.child_link_wf(
                r,
                #[trigger] n.children[i],
            ) by {
                if r == parent {
                    let old_i = if i < at { i } else { i + 1 };
                    assert(n.children[i] == siblings[old_i]);
                    assert(self.child_link_wf(r, siblings[old_i]));
                    assert(siblings[old_i] != node);
                } else {
                    assert(n.children[i] == self.node(r).children[i]);
                    assert(self.child_link_wf(r, self.node(r).children[i]));
                    assert(n.children[i] != node);
                }
            }
            if r == parent {
                assert forall|i: int, j: int|
                    0 <= i < n.children.len() && 0 <= j < n.children.len() && i != j implies n.children[i]
                    != n.children[j] by {
                    let old_i = if i < at { i } else { i + 1 };
                    let old_j = if j < at { j } else { j + 1 };
                    assert(n.children[i] == siblings[old_i]);
                    assert(n.children[j] == siblings[old_j]);
                }
            }
            match n.parent {
                Some(p) => {
                    if after.contains(p) {
                        let k = choose|k: int|
                            0 <= k < self.node(p).children.len() && self.node(p).children[k] == r;
                        if p == parent {
                            assert(k != at);
                            let new_k = if k < at { k } else { k - 1 };
                            assert(after.node(p).children[new_k] == r);
                        } else {
                            assert(after.node(p).children[k] == r);
                        }
                    }
                },
                None => {},
            }
        }
    }

    /// Emptying the root slot keeps the tree well-formed.
    pub proof fn lemma_without_root_wf(self)
        requires
            self.wf(),
        ensures
            self.without_root().wf(),
    {
        let after = self.without_root();
        assert forall|r: NodeRef| #[trigger] after.contains(r) implies after.links_wf(r) by {
            assert(self.contains(r));
            assert(self.links_wf(r));
            assert forall|i: int| 0 <= i < after.node(r).children.len() implies after.child_link_wf(
                r,
                #[trigger] after.node(r).children[i],
            ) by {
                assert(self.child_link_wf(r, self.node(r).children[i]));
            }
        }
    }

    /// Letting go of a node that nothing keeps leaves the tree well-formed.
    pub proof fn lemma_without_node_wf(self, node: NodeRef)
        requires
            self.wf(),
            self.detached(node),
        ensures
            self.without_node(node).wf(),
    {
        let after = self.without_node(node);
        assert(self.links_wf(node));
        assert forall|r: NodeRef| #[trigger] after.contains(r) implies after.links_wf(r) by {
            assert(self.contains(r));
            assert(self.links_wf(r));
            let n = after.node(r);
            assert forall|i: int| 0 <= i < n.children.len() implies after.child_link_wf(
                r,
                #[trigger] n.children[i],
            ) by {
                assert(self.child_link_wf(r, self.node(r).children[i]));
            }
        }
    }

    /// Replacing a payload keeps the tree well-formed.
    pub proof fn lemma_with_data_wf(self, r: NodeRef, data: T)
        requires
            self.wf(),
            self.contains(r),
        ensures
            self.with_data(r, data).wf(),
    {
        let after = self.with_data(r, data);
        assert forall|x: NodeRef| #[trigger] after.contains(x) implies after.links_wf(x) by {
            assert(self.contains(x));
            assert(self.links_wf(x));
            let n = after.node(x);
            assert(n.children == self.node(x).children);
            assert forall|i: int| 0 <= i < n.children.len() implies after.child_link_wf(
                x,
                #[trigger] n.children[i],
            ) by {
                assert(self.child_link_wf(x, self.node(x).children[i]));
            }
        }
    }
}

} // verus!

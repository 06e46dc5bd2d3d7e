//! How sizes add up in a tree of entries: what it means for the size of a
//! node to be right, what a size that travels up the tree changes, and why
//! the sizes are right again afterwards.
use vstd::prelude::*;
use crate::entry_node::EntryNode;
use crate::entry_size::EntrySize;
use crate::entry_type::EntryType;
use crate::node::{NodeRef, NodeView};
use crate::tree::TreeView;

verus! {

/// Which way a size travels up the tree.
#[derive(Clone, Copy, Debug, PartialEq, Eq, Structural)]
pub enum BackpropOperation {
    Add,
    Subtract,
}

/// A pair of byte counts without an upper limit, for sums in specifications.
pub struct SizeSum {
    pub apparent: int,
    pub disk: int,
}

impl SizeSum {
    pub open spec fn zero() -> SizeSum {
        SizeSum { apparent: 0, disk: 0 }
    }

    pub open spec fn of(size: EntrySize) -> SizeSum {
        SizeSum { apparent: size.apparent_size as int, disk: size.disk_size as int }
    }

    pub open spec fn plus(self, other: SizeSum) -> SizeSum {
        SizeSum { apparent: self.apparent + other.apparent, disk: self.disk + other.disk }
    }

    pub open spec fn minus(self, other: SizeSum) -> SizeSum {
        SizeSum { apparent: self.apparent - other.apparent, disk: self.disk - other.disk }
    }

    /// Both counts fit in `u64`.
    pub open spec fn fits(self) -> bool {
        0 <= self.apparent <= u64::MAX && 0 <= self.disk <= u64::MAX
    }

    /// `self` after `size` travelled through it in the direction of `op`.
    pub open spec fn shift(self, op: BackpropOperation, size: EntrySize) -> SizeSum {
        match op {
            BackpropOperation::Add => self.plus(SizeSum::of(size)),
            BackpropOperation::Subtract => self.minus(SizeSum::of(size)),
        }
    }
}

/// The entry with its size changed by `size` in the direction of `op`.
pub open spec fn shift_entry(entry: EntryNode, op: BackpropOperation, size: EntrySize) -> EntryNode {
    EntryNode {
        sizes: match op {
            BackpropOperation::Add => entry.sizes.plus(size),
            BackpropOperation::Subtract => entry.sizes.minus(size),
        },
        ..entry
    }
}

/// The size of `entry` can take `size` in the direction of `op` without
/// leaving `u64`.
pub open spec fn can_shift(entry: EntryNode, op: BackpropOperation, size: EntrySize) -> bool {
    match op {
        BackpropOperation::Add => entry.sizes.fits_with(size),
        BackpropOperation::Subtract => entry.sizes.covers(size),
    }
}

/// The sizes of the nodes `children`, added up.
pub open spec fn children_size(tree: TreeView<EntryNode>, children: Seq<NodeRef>) -> SizeSum
    decreases children.len(),
{
    if children.len() == 0 {
        SizeSum::zero()
    } else {
        children_size(tree, children.drop_last()).plus(
            SizeSum::of(tree.node(children.last()).data.sizes),
        )
    }
}

/// `total` is right for an entry of kind `kind` whose own size is `own` and
/// whose children add up to `below`.
///
/// A directory holds its own size and all that is below it. A file holds its
/// own size, or nothing where it is a further link to a file counted
/// elsewhere.
pub open spec fn accounts_for(kind: EntryType, own: SizeSum, total: SizeSum, below: SizeSum) -> bool {
    match kind {
        EntryType::Directory => total == own.plus(below),
        EntryType::File(_) => total == own.plus(below) || total == below,
    }
}

/// The size of the node `r` would be right if it were `total`.
pub open spec fn accounts_at(tree: TreeView<EntryNode>, r: NodeRef, total: SizeSum) -> bool {
    let n = tree.node(r);
    accounts_for(
        n.data.entry_type,
        SizeSum::of(n.data.metadata.own_size()),
        total,
        children_size(tree, n.children),
    )
}

/// The size of the node `r` is right.
pub open spec fn consistent_at(tree: TreeView<EntryNode>, r: NodeRef) -> bool {
    accounts_at(tree, r, SizeSum::of(tree.node(r).data.sizes))
}

/// The size of every living node is right.
pub open spec fn sizes_consistent(tree: TreeView<EntryNode>) -> bool {
    forall|r: NodeRef| #[trigger] tree.contains(r) ==> consistent_at(tree, r)
}

/// The size of every living node but `except` is right.
pub open spec fn sizes_consistent_except(tree: TreeView<EntryNode>, except: NodeRef) -> bool {
    forall|r: NodeRef| #[trigger] tree.contains(r) && r != except ==> consistent_at(tree, r)
}

/// The tree after `size` travelled, in the direction of `op`, through every
/// node of `chain`. Links stay as they are.
#[verifier::opaque]
pub open spec fn shifted(
    tree: TreeView<EntryNode>,
    chain: Seq<NodeRef>,
    op: BackpropOperation,
    size: EntrySize,
) -> TreeView<EntryNode> {
    TreeView {
        slots: Seq::new(
            tree.slots.len(),
            |i: int|
                match tree.slots[i] {
                    Some(n) => if chain.contains(NodeRef { index: i as usize }) {
                        Some(NodeView { data: shift_entry(n.data, op, size), ..n })
                    } else {
                        Some(n)
                    },
                    None => None,
                },
        ),
        root: tree.root,
    }
}

/// Every node of `chain` can take `size` in the direction of `op`.
pub open spec fn chain_can_shift(
    tree: TreeView<EntryNode>,
    chain: Seq<NodeRef>,
    op: BackpropOperation,
    size: EntrySize,
) -> bool {
    forall|i: int| 0 <= i < chain.len() ==> can_shift(tree.node(#[trigger] chain[i]).data, op, size)
}

/// Two trees in which the nodes `children` have the same sizes give the same
/// sum.
pub proof fn lemma_children_size_agree(
    first: TreeView<EntryNode>,
    second: TreeView<EntryNode>,
    children: Seq<NodeRef>,
)
    requires
        forall|i: int|
            0 <= i < children.len() ==> first.node(#[trigger] children[i]).data.sizes
                == second.node(children[i]).data.sizes,
    ensures
        children_size(first, children) == children_size(second, children),
    decreases children.len(),
{
    if children.len() > 0 {
        let rest = children.drop_last();
        assert forall|i: int| 0 <= i < rest.len() implies first.node(#[trigger] rest[i]).data.sizes
            == second.node(rest[i]).data.sizes by {
            assert(rest[i] == children[i]);
        }
        lemma_children_size_agree(first, second, rest);
        assert(children.last() == children[children.len() - 1]);
    }
}

/// A further child adds its size to the sum.
pub proof fn lemma_children_size_push(
    tree: TreeView<EntryNode>,
    children: Seq<NodeRef>,
    child: NodeRef,
)
    ensures
        children_size(tree, children.push(child)) == children_size(tree, children).plus(
            SizeSum::of(tree.node(child).data.sizes),
        ),
{
    assert(children.push(child).drop_last() =~= children);
}

/// A child that leaves takes its size out of the sum.
pub proof fn lemma_children_size_remove(tree: TreeView<EntryNode>, children: Seq<NodeRef>, at: int)
    requires
        0 <= at < children.len(),
    ensures
        children_size(tree, children.remove(at)) == children_size(tree, children).minus(
            SizeSum::of(tree.node(children[at]).data.sizes),
        ),
    decreases children.len(),
{
    if at == children.len() - 1 {
        assert(children.remove(at) =~= children.drop_last());
    } else {
        let rest = children.drop_last();
        lemma_children_size_remove(tree, rest, at);
        assert(children.remove(at).drop_last() =~= rest.remove(at));
        assert(children.remove(at).last() == children.last());
        assert(rest[at] == children[at]);
    }
}

/// Where the trees differ in the size of one child only, the sums differ by
/// as much.
pub proof fn lemma_children_size_one_changed(
    first: TreeView<EntryNode>,
    second: TreeView<EntryNode>,
    children: Seq<NodeRef>,
    at: int,
)
    requires
        0 <= at < children.len(),
        forall|i: int|
            0 <= i < children.len() && i != at ==> first.node(#[trigger] children[i]).data.sizes
                == second.node(children[i]).data.sizes,
    ensures
        children_size(second, children).minus(SizeSum::of(second.node(children[at]).data.sizes))
            == children_size(first, children).minus(
            SizeSum::of(first.node(children[at]).data.sizes),
        ),
    decreases children.len(),
{
    let rest = children.drop_last();
    assert forall|i: int| 0 <= i < rest.len() && i != at implies first.node(
        #[trigger] rest[i],
    ).data.sizes == second.node(rest[i]).data.sizes by {
        assert(rest[i] == children[i]);
    }
    if at == children.len() - 1 {
        lemma_children_size_agree(first, second, rest);
    } else {
        lemma_children_size_one_changed(first, second, rest, at);
        assert(rest[at] == children[at]);
        assert(children.last() == children[children.len() - 1]);
    }
}

/// A child of `r` that lies on the chain of `node` is followed there by `r`,
/// which therefore lies on the chain too, above `node`.
pub proof fn lemma_child_on_chain(tree: TreeView<EntryNode>, node: NodeRef, r: NodeRef, k: int)
    requires
        tree.wf(),
        tree.contains(r),
        0 <= k < tree.node(r).children.len(),
        tree.ancestors(node).contains(tree.node(r).children[k]),
    ensures
        r != node,
        exists|i: int|
            0 < i < tree.ancestors(node).len() && tree.ancestors(node)[i] == r
                && #[trigger] tree.ancestors(node)[i - 1] == tree.node(r).children[k],
{
    let chain = tree.ancestors(node);
    let child = tree.node(r).children[k];
    let j = choose|j: int| 0 <= j < chain.len() && chain[j] == child;
    tree.lemma_ancestors_linked(node);
    tree.lemma_ancestors_distinct(node);
    assert(tree.links_wf(r));
    assert(tree.child_link_wf(r, child));
    assert(tree.parent(chain[j]) == Some(r));
    assert(chain[j + 1] == r);
    assert(chain[(j + 1) - 1] == child);
    if r == node {
        assert(tree.contains(node));
        tree.lemma_ancestors_unfold(node);
        assert(chain[0] == chain[j + 1]);
    }
}

/// After a size travelled through the chain of `node`, the children of a node
/// that is not on the chain, or is `node` itself, add up as before.
proof fn lemma_children_untouched(
    tree: TreeView<EntryNode>,
    node: NodeRef,
    op: BackpropOperation,
    size: EntrySize,
    r: NodeRef,
)
    requires
        tree.wf(),
        tree.contains(r),
        r == node || !tree.ancestors(node).contains(r),
    ensures
        children_size(shifted(tree, tree.ancestors(node), op, size), tree.node(r).children)
            == children_size(tree, tree.node(r).children),
{
    let chain = tree.ancestors(node);
    let after = shifted(tree, chain, op, size);
    let children = tree.node(r).children;
    lemma_shifted_frame(tree, chain, op, size);
    assert(tree.links_wf(r));
    assert forall|k: int| 0 <= k < children.len() implies after.node(
        #[trigger] children[k],
    ).data.sizes == tree.node(children[k]).data.sizes by {
        assert(tree.child_link_wf(r, children[k]));
        if chain.contains(children[k]) {
            lemma_child_on_chain(tree, node, r, k);
        }
    }
    lemma_children_size_agree(after, tree, children);
}

/// After a size travelled through the chain of `node`, the children of a node
/// higher up on the chain add up to that much more, or less.
proof fn lemma_children_of_chain_node(
    tree: TreeView<EntryNode>,
    node: NodeRef,
    op: BackpropOperation,
    size: EntrySize,
    i: int,
)
    requires
        tree.wf(),
        0 < i < tree.ancestors(node).len(),
        chain_can_shift(tree, tree.ancestors(node), op, size),
    ensures
        children_size(
            shifted(tree, tree.ancestors(node), op, size),
            tree.node(tree.ancestors(node)[i]).children,
        ) == children_size(tree, tree.node(tree.ancestors(node)[i]).children).shift(op, size),
{
    let chain = tree.ancestors(node);
    let after = shifted(tree, chain, op, size);
    let r = chain[i];
    let below = chain[i - 1];
    let children = tree.node(r).children;
    lemma_shifted_frame(tree, chain, op, size);
    tree.lemma_ancestors_alive(node);
    tree.lemma_ancestors_linked(node);
    tree.lemma_ancestors_distinct(node);
    assert(tree.contains(r) && tree.contains(below));
    assert(tree.links_wf(r));
    assert(tree.links_wf(below));
    assert(tree.parent(below) == Some(r));
    assert(children.contains(below));
    let at = choose|at: int| 0 <= at < children.len() && children[at] == below;
    assert forall|k: int| 0 <= k < children.len() && k != at implies tree.node(
        #[trigger] children[k],
    ).data.sizes == after.node(children[k]).data.sizes by {
        assert(tree.child_link_wf(r, children[k]));
        if chain.contains(children[k]) {
            lemma_child_on_chain(tree, node, r, k);
            let other = choose|other: int|
                0 < other < chain.len() && chain[other] == r && #[trigger] chain[other - 1]
                    == children[k];
            assert(other == i);
        }
    }
    lemma_children_size_one_changed(tree, after, children, at);
    assert(chain.contains(below));
    assert(can_shift(tree.node(chain[i - 1]).data, op, size));
    assert(SizeSum::of(after.node(below).data.sizes) == SizeSum::of(
        tree.node(below).data.sizes,
    ).shift(op, size));
}

/// A size that travels through the whole chain of `node` puts every size
/// right, where before all sizes were right but that of `node`, which was
/// off by exactly that size.
pub proof fn lemma_shift_restores(
    tree: TreeView<EntryNode>,
    node: NodeRef,
    op: BackpropOperation,
    size: EntrySize,
)
    requires
        tree.wf(),
        tree.contains(node),
        sizes_consistent_except(tree, node),
        accounts_at(tree, node, SizeSum::of(tree.node(node).data.sizes).shift(op, size)),
        chain_can_shift(tree, tree.ancestors(node), op, size),
    ensures
        shifted(tree, tree.ancestors(node), op, size).wf(),
        sizes_consistent(shifted(tree, tree.ancestors(node), op, size)),
{
    let chain = tree.ancestors(node);
    let after = shifted(tree, chain, op, size);
    lemma_shifted_frame(tree, chain, op, size);
    tree.lemma_ancestors_unfold(node);
    assert forall|r: NodeRef| #[trigger] after.contains(r) implies consistent_at(after, r) by {
        assert(tree.contains(r));
        let children = tree.node(r).children;
        assert(after.node(r).children == children);
        if r == node {
            lemma_children_untouched(tree, node, op, size, r);
            assert(chain[0] == node);
            assert(can_shift(tree.node(chain[0]).data, op, size));
        } else if chain.contains(r) {
            let i = choose|i: int| 0 <= i < chain.len() && chain[i] == r;
            lemma_children_of_chain_node(tree, node, op, size, i);
            assert(can_shift(tree.node(chain[i]).data, op, size));
            assert(consistent_at(tree, r));
        } else {
            lemma_children_untouched(tree, node, op, size, r);
            assert(consistent_at(tree, r));
        }
    }
}

/// A size that travels through a chain changes sizes and nothing else: the
/// same nodes are alive with the same links, names and metadata, and the tree
/// stays well-formed.
pub proof fn lemma_shifted_frame(
    tree: TreeView<EntryNode>,
    chain: Seq<NodeRef>,
    op: BackpropOperation,
    size: EntrySize,
)
    ensures
        shifted(tree, chain, op, size).slots.len() == tree.slots.len(),
        shifted(tree, chain, op, size).root == tree.root,
        forall|r: NodeRef| #[trigger]
            shifted(tree, chain, op, size).contains(r) <==> tree.contains(r),
        forall|r: NodeRef| #[trigger]
            tree.contains(r) ==> shifted(tree, chain, op, size).node(r) == (NodeView {
                data: if chain.contains(r) {
                    shift_entry(tree.node(r).data, op, size)
                } else {
                    tree.node(r).data
                },
                ..tree.node(r)
            }),
        tree.wf() ==> shifted(tree, chain, op, size).wf(),
{
    reveal(shifted);
    let after = shifted(tree, chain, op, size);
    assert forall|r: NodeRef| #[trigger] tree.contains(r) implies after.node(r) == (NodeView {
        data: if chain.contains(r) {
            shift_entry(tree.node(r).data, op, size)
        } else {
            tree.node(r).data
        },
        ..tree.node(r)
    }) by {
        assert(NodeRef { index: r.index as int as usize } == r);
    }
    if tree.wf() {
        assert forall|r: NodeRef| #[trigger] after.contains(r) implies after.links_wf(r) by {
            assert(tree.contains(r));
            assert(tree.links_wf(r));
            let n = after.node(r);
            assert forall|i: int| 0 <= i < n.children.len() implies after.child_link_wf(
                r,
                #[trigger] n.children[i],
            ) by {
                assert(tree.child_link_wf(r, tree.node(r).children[i]));
            }
        }
    }
}

/// What attaching a child changes for the sizes: the parent's children add
/// up to that much more, the child has no children, and nothing else moves.
pub proof fn lemma_with_child_sizes(tree: TreeView<EntryNode>, parent: NodeRef, data: EntryNode)
    requires
        tree.wf(),
        tree.contains(parent),
        tree.slots.len() < usize::MAX,
    ensures
        ({
            let after = tree.with_child(parent, data);
            let child = tree.next_ref();
            &&& after.wf()
            &&& !tree.contains(child)
            &&& after.node(child) == (NodeView {
                children: Seq::<NodeRef>::empty(),
                data,
                parent: Some(parent),
            })
            &&& forall|r: NodeRef| #[trigger]
                after.contains(r) <==> (r == child || tree.contains(r))
            &&& forall|r: NodeRef| #[trigger]
                tree.contains(r) ==> after.node(r).data == tree.node(r).data && after.node(r).parent
                    == tree.node(r).parent
            &&& forall|r: NodeRef| #[trigger]
                tree.contains(r) && r != parent ==> after.node(r) == tree.node(r) && children_size(
                    after,
                    after.node(r).children,
                ) == children_size(tree, tree.node(r).children)
            &&& after.node(parent).children == tree.node(parent).children.push(child)
            &&& children_size(after, after.node(parent).children) == children_size(
                tree,
                tree.node(parent).children,
            ).plus(SizeSum::of(data.sizes))
            &&& forall|r: NodeRef| #[trigger]
                tree.contains(r) ==> after.ancestors(r) == tree.ancestors(r)
            &&& after.ancestors(child) == seq![child] + tree.ancestors(parent)
        }),
{
    let after = tree.with_child(parent, data);
    let child = tree.next_ref();
    tree.lemma_with_child_wf(parent, data);
    assert forall|r: NodeRef| #[trigger] tree.contains(r) implies children_size(
        after,
        tree.node(r).children,
    ) == children_size(tree, tree.node(r).children) by {
        assert(tree.links_wf(r));
        let children = tree.node(r).children;
        assert forall|i: int| 0 <= i < children.len() implies after.node(
            #[trigger] children[i],
        ).data.sizes == tree.node(children[i]).data.sizes by {
            assert(tree.child_link_wf(r, children[i]));
        }
        lemma_children_size_agree(after, tree, children);
    }
    lemma_children_size_push(after, tree.node(parent).children, child);
    assert forall|r: NodeRef| #[trigger] tree.contains(r) implies after.ancestors(r)
        == tree.ancestors(r) by {
        tree.lemma_ancestors_same_links(after, r);
    }
    after.lemma_ancestors_unfold(child);
}

/// What installing a root changes for the sizes: nothing, but for the root
/// itself, which has no children.
pub proof fn lemma_with_root_sizes(tree: TreeView<EntryNode>, data: EntryNode)
    requires
        tree.wf(),
        tree.root is None,
        tree.slots.len() < usize::MAX,
    ensures
        ({
            let after = tree.with_root(data);
            let root = tree.next_ref();
            &&& after.wf()
            &&& !tree.contains(root)
            &&& after.node(root) == (NodeView {
                children: Seq::<NodeRef>::empty(),
                data,
                parent: None,
            })
            &&& forall|r: NodeRef| #[trigger]
                after.contains(r) <==> (r == root || tree.contains(r))
            &&& forall|r: NodeRef| #[trigger]
                tree.contains(r) ==> after.node(r) == tree.node(r) && children_size(
                    after,
                    after.node(r).children,
                ) == children_size(tree, tree.node(r).children)
            &&& forall|r: NodeRef| #[trigger]
                tree.contains(r) ==> after.ancestors(r) == tree.ancestors(r)
            &&& after.ancestors(root) == seq![root]
        }),
{
    let after = tree.with_root(data);
    let root = tree.next_ref();
    tree.lemma_with_root_wf(data);
    assert forall|r: NodeRef| #[trigger] tree.contains(r) implies children_size(
        after,
        tree.node(r).children,
    ) == children_size(tree, tree.node(r).children) by {
        assert(tree.links_wf(r));
        let children = tree.node(r).children;
        assert forall|i: int| 0 <= i < children.len() implies after.node(
            #[trigger] children[i],
        ).data.sizes == tree.node(children[i]).data.sizes by {
            assert(tree.child_link_wf(r, children[i]));
        }
        lemma_children_size_agree(after, tree, children);
    }
    assert forall|r: NodeRef| #[trigger] tree.contains(r) implies after.ancestors(r)
        == tree.ancestors(r) by {
        tree.lemma_ancestors_same_links(after, r);
    }
    after.lemma_ancestors_unfold(root);
}

/// What taking a child out of its parent's list changes for the sizes: the
/// parent's children add up to that much less, and nothing else moves. The
/// chains of the parent and of every node created before the child stay.
pub proof fn lemma_without_child_sizes(tree: TreeView<EntryNode>, parent: NodeRef, node: NodeRef)
    requires
        tree.wf(),
        tree.contains(node),
        tree.contains(parent),
        tree.node(node).parent == Some(parent),
        tree.root != Some(node),
    ensures
        ({
            let after = tree.without_child(parent, node);
            &&& after.wf()
            &&& forall|r: NodeRef| #[trigger] after.contains(r) <==> tree.contains(r)
            &&& forall|r: NodeRef| #[trigger]
                tree.contains(r) ==> after.node(r).data == tree.node(r).data
            &&& forall|r: NodeRef| #[trigger]
                tree.contains(r) && r != parent ==> after.node(r).children == tree.node(
                    r,
                ).children && children_size(after, after.node(r).children) == children_size(
                    tree,
                    tree.node(r).children,
                )
            &&& after.node(node).parent is None
            &&& after.node(parent).children == tree.node(parent).children.remove(
                tree.node(parent).children.index_of(node),
            )
            &&& children_size(after, after.node(parent).children) == children_size(
                tree,
                tree.node(parent).children,
            ).minus(SizeSum::of(tree.node(node).data.sizes))
            &&& forall|r: NodeRef| #[trigger]
                tree.contains(r) && r.index < node.index ==> after.ancestors(r) == tree.ancestors(
                    r,
                )
        }),
{
    let after = tree.without_child(parent, node);
    tree.lemma_without_child_wf(parent, node);
    assert(tree.links_wf(node));
    assert(tree.links_wf(parent));
    let siblings = tree.node(parent).children;
    let at = siblings.index_of(node);
    assert(0 <= at < siblings.len() && siblings[at] == node);
    assert forall|r: NodeRef| #[trigger] tree.contains(r) implies children_size(
        after,
        tree.node(r).children,
    ) == children_size(tree, tree.node(r).children) by {
        let children = tree.node(r).children;
        assert forall|i: int| 0 <= i < children.len() implies after.node(
            #[trigger] children[i],
        ).data.sizes == tree.node(children[i]).data.sizes by {
            assert(tree.links_wf(r));
            assert(tree.child_link_wf(r, children[i]));
        }
        lemma_children_size_agree(after, tree, children);
    }
    lemma_children_size_remove(after, siblings, at);
    assert(children_size(after, siblings) == children_size(tree, siblings));
    assert forall|r: NodeRef| #[trigger] tree.contains(r) && r.index < node.index implies after.ancestors(
        r,
    ) == tree.ancestors(r) by {
        tree.lemma_ancestors_same_links(after, r);
    }
}

/// A size that has travelled through no node has changed nothing.
pub proof fn lemma_shifted_none(tree: TreeView<EntryNode>, op: BackpropOperation, size: EntrySize)
    ensures
        shifted(tree, Seq::<NodeRef>::empty(), op, size) == tree,
{
    reveal(shifted);
    assert(shifted(tree, Seq::<NodeRef>::empty(), op, size).slots =~= tree.slots);
}

/// A size that travels one node further changes the size of that node and
/// nothing else.
pub proof fn lemma_shifted_step(
    tree: TreeView<EntryNode>,
    chain: Seq<NodeRef>,
    done: int,
    op: BackpropOperation,
    size: EntrySize,
)
    requires
        0 <= done < chain.len(),
        chain.no_duplicates(),
        tree.contains(chain[done]),
        tree.slots.len() <= usize::MAX,
    ensures
        shifted(tree, chain.take(done), op, size).contains(chain[done]),
        shifted(tree, chain.take(done), op, size).node(chain[done]) == tree.node(chain[done]),
        shifted(tree, chain.take(done + 1), op, size) == shifted(
            tree,
            chain.take(done),
            op,
            size,
        ).with_data(chain[done], shift_entry(tree.node(chain[done]).data, op, size)),
{
    reveal(shifted);
    let before = shifted(tree, chain.take(done), op, size);
    let after = shifted(tree, chain.take(done + 1), op, size);
    let current = chain[done];
    assert(!chain.take(done).contains(current));
    assert(NodeRef { index: current.index as int as usize } == current);
    assert(chain.take(done + 1) =~= chain.take(done).push(current));
    let stepped = before.with_data(current, shift_entry(tree.node(current).data, op, size));
    assert forall|i: int| 0 <= i < tree.slots.len() implies after.slots[i] == stepped.slots[i] by {
        let r = NodeRef { index: i as usize };
        if r == current {
            assert(chain.take(done + 1)[done] == current);
        } else {
            let longer = chain.take(done + 1);
            let shorter = chain.take(done);
            if longer.contains(r) {
                let k = choose|k: int| 0 <= k < longer.len() && longer[k] == r;
                assert(shorter[k] == r);
            }
            if shorter.contains(r) {
                let k = choose|k: int| 0 <= k < shorter.len() && shorter[k] == r;
                assert(longer[k] == r);
            }
        }
    }
    assert(after.slots =~= stepped.slots);
}

/// A sum of sizes is at least each of them, and at least nothing.
pub proof fn lemma_children_size_at_least(
    tree: TreeView<EntryNode>,
    children: Seq<NodeRef>,
    at: int,
)
    requires
        0 <= at < children.len(),
    ensures
        children_size(tree, children).apparent >= tree.node(children[at]).data.sizes.apparent_size,
        children_size(tree, children).disk >= tree.node(children[at]).data.sizes.disk_size,
    decreases children.len(),
{
    lemma_children_size_not_negative(tree, children.drop_last());
    if at < children.len() - 1 {
        lemma_children_size_at_least(tree, children.drop_last(), at);
        assert(children.drop_last()[at] == children[at]);
    }
}

/// A sum of sizes is not negative.
pub proof fn lemma_children_size_not_negative(tree: TreeView<EntryNode>, children: Seq<NodeRef>)
    ensures
        children_size(tree, children).apparent >= 0,
        children_size(tree, children).disk >= 0,
    decreases children.len(),
{
    if children.len() > 0 {
        lemma_children_size_not_negative(tree, children.drop_last());
    }
}

/// Sizes grow up the tree: where every size above `node` is right, every
/// node above `node` holds at least what `node` holds, and so can lose
/// whatever `node` can lose.
pub proof fn lemma_chain_covers(tree: TreeView<EntryNode>, node: NodeRef, amount: EntrySize)
    requires
        tree.wf(),
        tree.contains(node),
        sizes_consistent_except(tree, node),
        tree.node(node).data.sizes.covers(amount),
    ensures
        chain_can_shift(tree, tree.ancestors(node), BackpropOperation::Subtract, amount),
{
    let chain = tree.ancestors(node);
    tree.lemma_ancestors_unfold(node);
    assert forall|i: int| 0 <= i < chain.len() implies can_shift(
        tree.node(#[trigger] chain[i]).data,
        BackpropOperation::Subtract,
        amount,
    ) by {
        lemma_chain_grows(tree, node, i);
    }
}

/// The node at position `i` of the chain of `node` holds at least what `node`
/// holds.
proof fn lemma_chain_grows(tree: TreeView<EntryNode>, node: NodeRef, i: int)
    requires
        tree.wf(),
        tree.contains(node),
        sizes_consistent_except(tree, node),
        0 <= i < tree.ancestors(node).len(),
    ensures
        tree.node(tree.ancestors(node)[i]).data.sizes.covers(tree.node(node).data.sizes),
    decreases i,
{
    let chain = tree.ancestors(node);
    tree.lemma_ancestors_unfold(node);
    if i > 0 {
        lemma_chain_grows(tree, node, i - 1);
        tree.lemma_ancestors_alive(node);
        tree.lemma_ancestors_linked(node);
        tree.lemma_ancestors_distinct(node);
        let r = chain[i];
        let below = chain[i - 1];
        assert(tree.contains(r) && tree.contains(below));
        assert(tree.parent(below) == Some(r));
        assert(tree.links_wf(below));
        let children = tree.node(r).children;
        let at = choose|at: int| 0 <= at < children.len() && children[at] == below;
        lemma_children_size_at_least(tree, children, at);
        assert(chain[0] == node);
        assert(r != node);
        assert(consistent_at(tree, r));
    }
}

/// `entry` is a further link to a file that was counted elsewhere: a file
/// with several links that holds no size.
pub open spec fn passed_over(entry: EntryNode) -> bool {
    entry.entry_type is File && entry.metadata.links > 1 && entry.sizes == EntrySize::zero()
}

/// Those of `children` that are no further links to files counted elsewhere.
pub open spec fn counted_children(tree: TreeView<EntryNode>, children: Seq<NodeRef>) -> Seq<NodeRef>
    decreases children.len(),
{
    if children.len() == 0 {
        Seq::empty()
    } else if passed_over(tree.node(children.last()).data) {
        counted_children(tree, children.drop_last())
    } else {
        counted_children(tree, children.drop_last()).push(children.last())
    }
}

/// Further links to files counted elsewhere add nothing to a sum.
pub proof fn lemma_counted_children_size(tree: TreeView<EntryNode>, children: Seq<NodeRef>)
    ensures
        children_size(tree, counted_children(tree, children)) == children_size(tree, children),
    decreases children.len(),
{
    if children.len() > 0 {
        lemma_children_size_not_negative(tree, children.drop_last());
        lemma_counted_children_size(tree, children.drop_last());
        if !passed_over(tree.node(children.last()).data) {
            lemma_children_size_push(
                tree,
                counted_children(tree, children.drop_last()),
                children.last(),
            );
        }
    }
}

/// In a tree in which every size is right, a directory holds its own size
/// and the sizes of its children, further links to files counted elsewhere
/// left out.
pub proof fn lemma_directory_size(tree: TreeView<EntryNode>, dir: NodeRef)
    requires
        sizes_consistent(tree),
        tree.contains(dir),
        tree.node(dir).data.entry_type == EntryType::Directory,
    ensures
        SizeSum::of(tree.node(dir).data.sizes) == SizeSum::of(
            tree.node(dir).data.metadata.own_size(),
        ).plus(children_size(tree, counted_children(tree, tree.node(dir).children))),
        SizeSum::of(tree.node(dir).data.sizes) == SizeSum::of(
            tree.node(dir).data.metadata.own_size(),
        ).plus(children_size(tree, tree.node(dir).children)),
{
    assert(consistent_at(tree, dir));
    lemma_counted_children_size(tree, tree.node(dir).children);
}

/// In a tree in which every size is right, a directory that takes no space
/// of its own holds exactly the sizes of its children, further links to
/// files counted elsewhere left out.
pub proof fn lemma_directory_size_is_childrens(tree: TreeView<EntryNode>, dir: NodeRef)
    requires
        sizes_consistent(tree),
        tree.contains(dir),
        tree.node(dir).data.entry_type == EntryType::Directory,
        tree.node(dir).data.metadata.own_size() == EntrySize::zero(),
    ensures
        SizeSum::of(tree.node(dir).data.sizes) == children_size(
            tree,
            counted_children(tree, tree.node(dir).children),
        ),
{
    lemma_directory_size(tree, dir);
}

/// What a node brings to the sizes above it by itself: a directory its own
/// size, a file what it holds beyond what is below it, which is its own size
/// or nothing.
pub open spec fn own_share(tree: TreeView<EntryNode>, r: NodeRef) -> SizeSum {
    match tree.node(r).data.entry_type {
        EntryType::Directory => SizeSum::of(tree.node(r).data.metadata.own_size()),
        EntryType::File(_) => SizeSum::of(tree.node(r).data.sizes).minus(
            children_size(tree, tree.node(r).children),
        ),
    }
}

/// The shares of `r` and of everything below it, added up.
pub open spec fn subtree_size(tree: TreeView<EntryNode>, r: NodeRef) -> SizeSum
    decreases tree.slots.len() - r.index, 1nat, 0nat,
{
    own_share(tree, r).plus(subtrees_size(tree, r, tree.node(r).children))
}

/// The shares of everything at and below the nodes `children`, which are
/// children of `parent`, added up.
pub open spec fn subtrees_size(
    tree: TreeView<EntryNode>,
    parent: NodeRef,
    children: Seq<NodeRef>,
) -> SizeSum
    decreases tree.slots.len() - parent.index, 0nat, children.len(),
{
    if children.len() == 0 {
        SizeSum::zero()
    } else {
        let last = children.last();
        subtrees_size(tree, parent, children.drop_last()).plus(
            if parent.index < last.index < tree.slots.len() {
                subtree_size(tree, last)
            } else {
                SizeSum::zero()
            },
        )
    }
}

/// In a tree in which every size is right, a node holds the shares of itself
/// and of everything below it: for a directory, its own size, the own sizes
/// of all directories below it, and the sizes of all files below it, further
/// links to files counted elsewhere left out.
pub proof fn lemma_size_is_subtree_size(tree: TreeView<EntryNode>, r: NodeRef)
    requires
        tree.wf(),
        sizes_consistent(tree),
        tree.contains(r),
    ensures
        SizeSum::of(tree.node(r).data.sizes) == subtree_size(tree, r),
    decreases tree.slots.len() - r.index, 1nat, 0nat,
{
    assert(consistent_at(tree, r));
    assert(tree.links_wf(r));
    lemma_sizes_are_subtrees_sizes(tree, r, tree.node(r).children.len() as int);
    assert(tree.node(r).children.take(tree.node(r).children.len() as int)
        =~= tree.node(r).children);
}

/// The first `upto` children of `parent` hold, added up, the shares of
/// everything at and below them.
proof fn lemma_sizes_are_subtrees_sizes(tree: TreeView<EntryNode>, parent: NodeRef, upto: int)
    requires
        tree.wf(),
        sizes_consistent(tree),
        tree.contains(parent),
        0 <= upto <= tree.node(parent).children.len(),
    ensures
        children_size(tree, tree.node(parent).children.take(upto)) == subtrees_size(
            tree,
            parent,
            tree.node(parent).children.take(upto),
        ),
    decreases tree.slots.len() - parent.index, 0nat, upto,
{
    let children = tree.node(parent).children;
    if upto > 0 {
        let last = children[upto - 1];
        assert(tree.links_wf(parent));
        assert(tree.child_link_wf(parent, last));
        assert(tree.links_wf(last));
        lemma_sizes_are_subtrees_sizes(tree, parent, upto - 1);
        lemma_size_is_subtree_size(tree, last);
        assert(children.take(upto).drop_last() =~= children.take(upto - 1));
        assert(children.take(upto).last() == last);
    }
}

} // verus!

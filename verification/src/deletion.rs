//! What the removal of entries does to the tree and its sizes.
use vstd::prelude::*;
use crate::aggregation::{
    accounts_at, consistent_at, lemma_chain_covers, lemma_children_size_at_least,
    lemma_children_size_not_negative, lemma_shift_restores, lemma_shifted_frame,
    lemma_without_child_sizes, shifted, sizes_consistent, sizes_consistent_except,
    BackpropOperation, SizeSum,
};
use crate::entry_node::EntryNode;
use crate::entry_size::EntrySize;
use crate::node::NodeRef;
use crate::tree::{TreeError, TreeView};

verus! {

/// How far the removal of entries from the tree has got: the tree, the sizes
/// of the entries removed added up, and the fault that stopped the removal,
/// if one did.
pub struct Removal {
    pub tree: TreeView<EntryNode>,
    pub removed: EntrySize,
    pub fault: Option<TreeError>,
}

/// The removal after the node `child` was to be taken out. Once a fault has
/// stopped the removal, nothing more happens.
pub open spec fn child_removed(removal: Removal, child: NodeRef) -> Removal {
    if removal.fault is Some {
        removal
    } else {
        match removal.tree.removal(child) {
            Ok(tree) => Removal {
                tree,
                removed: removal.removed.plus(removal.tree.node(child).data.sizes),
                fault: None,
            },
            Err(fault) => Removal { fault: Some(fault), ..removal },
        }
    }
}

/// The removal after the first `count` of `targets` were to be taken out, in
/// order.
pub open spec fn removed_run(tree: TreeView<EntryNode>, targets: Seq<NodeRef>, count: nat) -> Removal
    decreases count,
{
    if count == 0 {
        Removal { tree, removed: EntrySize::zero(), fault: None }
    } else {
        child_removed(
            removed_run(tree, targets, (count - 1) as nat),
            targets[count - 1],
        )
    }
}

/// The children of `parent` at the positions `order`, as they were found in
/// `tree`.
pub open spec fn targets_of(tree: TreeView<EntryNode>, parent: NodeRef, order: Seq<usize>) -> Seq<
    NodeRef,
> {
    Seq::new(order.len(), |k: int| tree.node(parent).children[order[k] as int])
}

/// The tree after a removal is settled: the sizes removed leave `parent` and
/// every node above it.
pub open spec fn settled(removal: Removal, parent: NodeRef) -> TreeView<EntryNode> {
    shifted(
        removal.tree,
        removal.tree.ancestors(parent),
        BackpropOperation::Subtract,
        removal.removed,
    )
}

/// What holds of the tree while children of `parent` are being removed:
/// every size is right but that of `parent`, which still holds the sizes
/// `removed` of the children that have left.
pub open spec fn removing(tree: TreeView<EntryNode>, parent: NodeRef, removed: EntrySize) -> bool {
    &&& tree.wf()
    &&& tree.contains(parent)
    &&& sizes_consistent_except(tree, parent)
    &&& tree.node(parent).data.sizes.covers(removed)
    &&& accounts_at(
        tree,
        parent,
        SizeSum::of(tree.node(parent).data.sizes).minus(SizeSum::of(removed)),
    )
}

/// A tree in which every size is right is ready for a removal.
pub proof fn lemma_removal_starts(tree: TreeView<EntryNode>, parent: NodeRef)
    requires
        tree.wf(),
        sizes_consistent(tree),
        tree.contains(parent),
    ensures
        removing(tree, parent, EntrySize::zero()),
{
    assert(consistent_at(tree, parent));
}

/// Taking a child of `parent` out carries the removal on: `parent` now holds
/// the size of that child too much, and its chain is as before.
pub proof fn lemma_removal_goes_on(
    tree: TreeView<EntryNode>,
    parent: NodeRef,
    removed: EntrySize,
    child: NodeRef,
)
    requires
        removing(tree, parent, removed),
        tree.contains(child),
        tree.parent(child) == Some(parent),
    ensures
        tree.removal(child) == Ok::<TreeView<EntryNode>, TreeError>(
            tree.without_child(parent, child),
        ),
        removed.fits_with(tree.node(child).data.sizes),
        removing(
            tree.without_child(parent, child),
            parent,
            removed.plus(tree.node(child).data.sizes),
        ),
        tree.without_child(parent, child).ancestors(parent) == tree.ancestors(parent),
        tree.without_child(parent, child).root == tree.root,
        forall|r: NodeRef| #[trigger]
            tree.without_child(parent, child).contains(r) <==> tree.contains(r),
        forall|r: NodeRef| #[trigger]
            tree.contains(r) ==> tree.without_child(parent, child).node(r).data == tree.node(
                r,
            ).data,
        forall|r: NodeRef| #[trigger]
            tree.contains(r) && r != child ==> tree.without_child(parent, child).node(r).parent
                == tree.node(r).parent,
{
    let after = tree.without_child(parent, child);
    assert(tree.links_wf(child));
    assert(tree.links_wf(parent));
    assert(tree.root != Some(child));
    lemma_without_child_sizes(tree, parent, child);
    let siblings = tree.node(parent).children;
    let at = siblings.index_of(child);
    assert(0 <= at < siblings.len() && siblings[at] == child);
    lemma_children_size_at_least(tree, siblings, at);
    lemma_children_size_not_negative(after, after.node(parent).children);
    assert forall|r: NodeRef| #[trigger] after.contains(r) && r != parent implies consistent_at(
        after,
        r,
    ) by {
        assert(tree.contains(r));
        assert(consistent_at(tree, r));
    }
}

/// A child that has left cannot leave again: it is neither the root nor has
/// it a parent.
pub proof fn lemma_removed_twice(tree: TreeView<EntryNode>, child: NodeRef)
    requires
        tree.wf(),
        tree.contains(child),
        tree.node(child).parent is None,
        tree.root != Some(child),
    ensures
        tree.removal(child) == Err::<TreeView<EntryNode>, TreeError>(TreeError::NotRootNoParent),
{
}

/// When the sizes removed have left `parent` and every node above it, the
/// removal is over and every size in the tree is right.
pub proof fn lemma_removal_ends(tree: TreeView<EntryNode>, parent: NodeRef, removed: EntrySize)
    requires
        removing(tree, parent, removed),
    ensures
        crate::aggregation::chain_can_shift(
            tree,
            tree.ancestors(parent),
            BackpropOperation::Subtract,
            removed,
        ),
        shifted(tree, tree.ancestors(parent), BackpropOperation::Subtract, removed).wf(),
        sizes_consistent(
            shifted(tree, tree.ancestors(parent), BackpropOperation::Subtract, removed),
        ),
        forall|r: NodeRef| #[trigger]
            shifted(tree, tree.ancestors(parent), BackpropOperation::Subtract, removed).contains(r)
                <==> tree.contains(r),
{
    lemma_chain_covers(tree, parent, removed);
    lemma_shift_restores(tree, parent, BackpropOperation::Subtract, removed);
    lemma_shifted_frame(tree, tree.ancestors(parent), BackpropOperation::Subtract, removed);
}

/// Taking one more target out is taking the run so far and then that target.
pub proof fn lemma_removed_run_step(tree: TreeView<EntryNode>, targets: Seq<NodeRef>, count: nat)
    ensures
        removed_run(tree, targets, count + 1) == child_removed(
            removed_run(tree, targets, count),
            targets[count as int],
        ),
{
    assert(((count + 1) - 1) as nat == count);
}

/// Deleting the child of `parent` at `index` does what is asked of a
/// deletion: the child is out of the tree and keeps its children, every node
/// from `parent` up has lost exactly the size of the child, and no other size
/// has moved.
pub proof fn lemma_deletion_of_one(tree: TreeView<EntryNode>, parent: NodeRef, index: usize)
    requires
        tree.wf(),
        sizes_consistent(tree),
        tree.contains(parent),
        index < tree.node(parent).children.len(),
    ensures
        ({
            let node = tree.node(parent).children[index as int];
            let run = removed_run(
                tree,
                targets_of(tree, parent, crate::sorting::descending(seq![index])),
                1,
            );
            let after = settled(run, parent);
            let lost = tree.node(node).data.sizes;
            &&& run.fault is None
            &&& run.removed == lost
            &&& after.wf()
            &&& sizes_consistent(after)
            &&& after.contains(node)
            &&& !after.attached(node)
            &&& !after.node(parent).children.contains(node)
            &&& after.node(node).children == tree.node(node).children
            &&& forall|i: int|
                0 <= i < tree.node(node).children.len() ==> after.parent(
                    #[trigger] tree.node(node).children[i],
                ) == Some(node)
            &&& after.ancestors(parent) == tree.ancestors(parent)
            &&& forall|r: NodeRef| #[trigger]
                tree.contains(r) ==> after.node(r).data.sizes == if tree.ancestors(parent).contains(
                    r,
                ) {
                    tree.node(r).data.sizes.minus(lost)
                } else {
                    tree.node(r).data.sizes
                }
            &&& forall|i: int|
                0 <= i < tree.ancestors(parent).len() ==> tree.node(
                    #[trigger] tree.ancestors(parent)[i],
                ).data.sizes.covers(lost)
        }),
{
    let node = tree.node(parent).children[index as int];
    assert(tree.links_wf(parent));
    assert(tree.child_link_wf(parent, node));
    crate::sorting::lemma_descending_one(index);
    let targets = targets_of(tree, parent, crate::sorting::descending(seq![index]));
    assert(targets =~= seq![node]);
    let lost = tree.node(node).data.sizes;
    lemma_removal_starts(tree, parent);
    lemma_removal_goes_on(tree, parent, EntrySize::zero(), node);
    lemma_removed_run_step(tree, seq![node], 0);
    let run = removed_run(tree, seq![node], 1);
    assert(run.tree == tree.without_child(parent, node));
    assert(run.removed == lost);
    lemma_removal_ends(run.tree, parent, run.removed);
    let after = settled(run, parent);
    lemma_shifted_frame(run.tree, run.tree.ancestors(parent), BackpropOperation::Subtract, lost);
    assert(tree.links_wf(node));
    assert(tree.links_wf(parent));
    // `node` is out of the tree.
    assert(run.tree.contains(node));
    assert(run.tree.node(node).parent is None);
    assert(after.contains(node));
    assert(after.node(node).parent is None);
    assert(after.ancestors(node) =~= seq![node]);
    assert(tree.root != Some(node));
    assert(!after.attached(node));
    assert(run.tree.contains(parent));
    assert(after.node(parent).children == run.tree.node(parent).children);
    assert(after.node(node).children == tree.node(node).children);
    // It has left the children of `parent`.
    let siblings = tree.node(parent).children;
    let at = siblings.index_of(node);
    assert(0 <= at < siblings.len() && siblings[at] == node);
    assert(!siblings.remove(at).contains(node)) by {
        if siblings.remove(at).contains(node) {
            let k = choose|k: int| 0 <= k < siblings.remove(at).len() && siblings.remove(at)[k]
                == node;
            let old_k = if k < at { k } else { k + 1 };
            assert(siblings[old_k] == node);
        }
    }
    // Its children are still below it.
    assert forall|i: int| 0 <= i < tree.node(node).children.len() implies after.parent(
        #[trigger] tree.node(node).children[i],
    ) == Some(node) by {
        assert(tree.child_link_wf(node, tree.node(node).children[i]));
        assert(tree.links_wf(tree.node(node).children[i]));
    }
    // The chain of `parent` is as it was.
    after.lemma_ancestors_same_links(run.tree, parent);
    assert(after.ancestors(parent) == tree.ancestors(parent));
    lemma_chain_covers(run.tree, parent, lost);
    assert forall|r: NodeRef| #[trigger] tree.contains(r) implies after.node(r).data.sizes
        == if tree.ancestors(parent).contains(r) {
        tree.node(r).data.sizes.minus(lost)
    } else {
        tree.node(r).data.sizes
    } by {
        assert(run.tree.contains(r));
        assert(run.tree.node(r).data == tree.node(r).data);
    }
    assert forall|i: int| 0 <= i < tree.ancestors(parent).len() implies tree.node(
        #[trigger] tree.ancestors(parent)[i],
    ).data.sizes.covers(lost) by {
        let r = tree.ancestors(parent)[i];
        tree.lemma_ancestors_alive(parent);
        assert(run.tree.ancestors(parent)[i] == r);
        assert(crate::aggregation::can_shift(
            run.tree.node(run.tree.ancestors(parent)[i]).data,
            BackpropOperation::Subtract,
            lost,
        ));
        assert(run.tree.node(r).data == tree.node(r).data);
    }
}

/// Once a fault has stopped a removal, further targets change nothing.
pub proof fn lemma_removed_run_stops(
    tree: TreeView<EntryNode>,
    targets: Seq<NodeRef>,
    reached: nat,
    count: nat,
)
    requires
        reached <= count,
        removed_run(tree, targets, reached).fault is Some,
    ensures
        removed_run(tree, targets, count) == removed_run(tree, targets, reached),
    decreases count - reached,
{
    if reached < count {
        lemma_removed_run_stops(tree, targets, reached, (count - 1) as nat);
    }
}

} // verus!

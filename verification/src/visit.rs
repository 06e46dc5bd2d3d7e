//! What the visit of one directory does to the tree, the table of hard
//! links and the sizes.
use vstd::prelude::*;
use crate::aggregation::{
    accounts_at, can_shift, chain_can_shift, lemma_shift_restores, lemma_with_child_sizes,
    lemma_with_root_sizes, shifted, sizes_consistent, sizes_consistent_except, BackpropOperation,
    SizeSum,
};
use crate::entry_node::{DirEntryKind, DirEntryRecord, EntryNode};
use crate::entry_size::EntrySize;
use crate::entry_type::EntryType;
use crate::node::NodeRef;
use crate::tree::TreeView;
use crate::tree_walk_state::{TreeWalkAncestor, TreeWalkState};

verus! {

/// What a walk holds while it visits a directory: the tree, the table of
/// hard-linked files, and the size collected for the directory so far.
pub struct Visit {
    pub tree: TreeView<EntryNode>,
    pub links: Map<u64, u64>,
    pub collected: EntrySize,
}

/// Whether a visit takes `entry` as a file of the directory: it was read
/// without an error, is a regular file, and its metadata could be read.
pub open spec fn takes(entry: Option<DirEntryRecord>) -> bool {
    entry matches Some(record) && record.kind == DirEntryKind::File && record.metadata is Some
}

/// The most that a visit of a directory of size `dir_size` with the entries
/// `entries` can add to the tree: the directory's own size and the size of
/// every file taken, as if none were a further link to a file counted before.
pub open spec fn incoming(dir_size: EntrySize, entries: Seq<Option<DirEntryRecord>>) -> SizeSum
    decreases entries.len(),
{
    if entries.len() == 0 {
        SizeSum::of(dir_size)
    } else if takes(entries.last()) {
        incoming(dir_size, entries.drop_last()).plus(
            SizeSum::of(entries.last()->0.metadata->0.own_size()),
        )
    } else {
        incoming(dir_size, entries.drop_last())
    }
}

/// The node for the file `record`: with its own size, or with none where the
/// table `links` says that the file has been counted.
pub open spec fn file_child(record: DirEntryRecord, links: Map<u64, u64>) -> EntryNode {
    let metadata = record.metadata->0;
    let node = EntryNode::of_record(record, metadata);
    if TreeWalkState::seen_before(links, metadata.inode, metadata.links) {
        EntryNode { sizes: EntrySize::zero(), ..node }
    } else {
        node
    }
}

/// The visit after `entry` was handled: a file is attached as the last child
/// of `dir`, recorded in the table and added to the collected size; anything
/// else is passed over.
pub open spec fn entry_handled(visit: Visit, dir: NodeRef, entry: Option<DirEntryRecord>) -> Visit {
    if takes(entry) {
        let metadata = entry->0.metadata->0;
        let child = file_child(entry->0, visit.links);
        Visit {
            tree: visit.tree.with_child(dir, child),
            links: TreeWalkState::after_sighting(visit.links, metadata.inode, metadata.links),
            collected: visit.collected.plus(child.sizes),
        }
    } else {
        visit
    }
}

/// The visit after all of `entries` were handled, in order.
pub open spec fn files_attached(start: Visit, dir: NodeRef, entries: Seq<Option<DirEntryRecord>>) -> Visit
    decreases entries.len(),
{
    if entries.len() == 0 {
        start
    } else {
        entry_handled(files_attached(start, dir, entries.drop_last()), dir, entries.last())
    }
}

/// The tree after the node for a directory was put below `ancestor`.
pub open spec fn dir_attached(
    tree: TreeView<EntryNode>,
    ancestor: TreeWalkAncestor,
    dir_node: EntryNode,
) -> TreeView<EntryNode> {
    match ancestor {
        TreeWalkAncestor::Tree => tree.with_root(dir_node),
        TreeWalkAncestor::Parent(parent) => tree.with_child(parent, dir_node),
    }
}

/// A whole visit of a directory: its node is put below `ancestor`, its files
/// are attached below it, and the size collected travels from it up to the
/// top.
pub open spec fn visited(
    tree: TreeView<EntryNode>,
    links: Map<u64, u64>,
    ancestor: TreeWalkAncestor,
    dir_node: EntryNode,
    dir_size: EntrySize,
    entries: Seq<Option<DirEntryRecord>>,
) -> Visit {
    let dir = tree.next_ref();
    let files = files_attached(
        Visit { tree: dir_attached(tree, ancestor, dir_node), links, collected: dir_size },
        dir,
        entries,
    );
    Visit {
        tree: shifted(files.tree, files.tree.ancestors(dir), BackpropOperation::Add, files.collected),
        links: files.links,
        collected: files.collected,
    }
}

/// The most that the visit can add fits in `u64`, on its own and on top of
/// every node above the place where the directory goes.
pub open spec fn has_room(
    tree: TreeView<EntryNode>,
    ancestor: TreeWalkAncestor,
    dir_size: EntrySize,
    entries: Seq<Option<DirEntryRecord>>,
) -> bool {
    let most = incoming(dir_size, entries);
    &&& most.fits()
    &&& match ancestor {
        TreeWalkAncestor::Tree => true,
        TreeWalkAncestor::Parent(parent) => chain_can_shift(
            tree,
            tree.ancestors(parent),
            BackpropOperation::Add,
            EntrySize { apparent_size: most.apparent as u64, disk_size: most.disk as u64 },
        ),
    }
}

/// What holds of the tree while a directory is being visited: every size is
/// right but that of the directory `dir`, which still holds nothing, while
/// `collected` is what it ought to hold.
pub open spec fn visiting(tree: TreeView<EntryNode>, dir: NodeRef, collected: EntrySize) -> bool {
    &&& tree.wf()
    &&& tree.contains(dir)
    &&& sizes_consistent_except(tree, dir)
    &&& tree.node(dir).data.sizes == EntrySize::zero()
    &&& accounts_at(tree, dir, SizeSum::of(collected))
}

/// `a` is at most `b`, count by count.
pub open spec fn at_most(a: SizeSum, b: SizeSum) -> bool {
    a.apparent <= b.apparent && a.disk <= b.disk
}

/// The most that a visit can add grows with every entry.
pub proof fn lemma_incoming_grows(dir_size: EntrySize, entries: Seq<Option<DirEntryRecord>>, n: int)
    requires
        0 <= n <= entries.len(),
    ensures
        at_most(SizeSum::of(dir_size), incoming(dir_size, entries.take(n))),
        at_most(incoming(dir_size, entries.take(n)), incoming(dir_size, entries)),
    decreases entries.len() - n,
{
    lemma_incoming_from_dir(dir_size, entries.take(n));
    if n == entries.len() {
        assert(entries.take(n) =~= entries);
    } else {
        lemma_incoming_grows(dir_size, entries, n + 1);
        assert(entries.take(n + 1).drop_last() =~= entries.take(n));
    }
}

/// The most that a visit can add is at least the directory's own size.
pub proof fn lemma_incoming_from_dir(dir_size: EntrySize, entries: Seq<Option<DirEntryRecord>>)
    ensures
        at_most(SizeSum::of(dir_size), incoming(dir_size, entries)),
    decreases entries.len(),
{
    if entries.len() > 0 {
        lemma_incoming_from_dir(dir_size, entries.drop_last());
    }
}

/// Handling the first `n + 1` entries is handling the first `n` and then the
/// next.
pub proof fn lemma_files_attached_step(
    start: Visit,
    dir: NodeRef,
    entries: Seq<Option<DirEntryRecord>>,
    n: int,
)
    requires
        0 <= n < entries.len(),
    ensures
        files_attached(start, dir, entries.take(n + 1)) == entry_handled(
            files_attached(start, dir, entries.take(n)),
            dir,
            entries[n],
        ),
        incoming(start.collected, entries.take(n + 1)) == if takes(entries[n]) {
            incoming(start.collected, entries.take(n)).plus(
                SizeSum::of(entries[n]->0.metadata->0.own_size()),
            )
        } else {
            incoming(start.collected, entries.take(n))
        },
{
    assert(entries.take(n + 1).drop_last() =~= entries.take(n));
    assert(entries.take(n + 1).last() == entries[n]);
}

/// Putting the node of a directory into the tree starts its visit.
pub proof fn lemma_visit_starts(
    tree: TreeView<EntryNode>,
    ancestor: TreeWalkAncestor,
    dir_node: EntryNode,
    dir_size: EntrySize,
)
    requires
        tree.wf(),
        sizes_consistent(tree),
        tree.slots.len() < usize::MAX,
        match ancestor {
            TreeWalkAncestor::Tree => tree.root is None,
            TreeWalkAncestor::Parent(parent) => tree.contains(parent),
        },
        dir_node.sizes == EntrySize::zero(),
        dir_node.entry_type == EntryType::Directory,
        dir_node.metadata.own_size() == dir_size,
    ensures
        visiting(dir_attached(tree, ancestor, dir_node), tree.next_ref(), dir_size),
        dir_attached(tree, ancestor, dir_node).ancestors(tree.next_ref()) == seq![tree.next_ref()]
            + match ancestor {
            TreeWalkAncestor::Tree => Seq::<NodeRef>::empty(),
            TreeWalkAncestor::Parent(parent) => tree.ancestors(parent),
        },
        forall|r: NodeRef| #[trigger]
            tree.contains(r) ==> dir_attached(tree, ancestor, dir_node).contains(r)
                && dir_attached(tree, ancestor, dir_node).node(r).data == tree.node(r).data,
        forall|r: NodeRef| #[trigger]
            tree.attached(r) ==> dir_attached(tree, ancestor, dir_node).attached(r),
{
    let after = dir_attached(tree, ancestor, dir_node);
    let dir = tree.next_ref();
    match ancestor {
        TreeWalkAncestor::Tree => {
            lemma_with_root_sizes(tree, dir_node);
            assert(seq![dir] + Seq::<NodeRef>::empty() =~= seq![dir]);
        },
        TreeWalkAncestor::Parent(parent) => {
            lemma_with_child_sizes(tree, parent, dir_node);
        },
    }
    assert forall|r: NodeRef| #[trigger] after.contains(r) && r != dir implies
        crate::aggregation::consistent_at(after, r) by {
        assert(tree.contains(r));
        assert(crate::aggregation::consistent_at(tree, r));
    }
}

/// Attaching a file below the directory that is being visited carries the
/// visit on: the file's size is right, and the directory ought to hold that
/// much more.
pub proof fn lemma_visit_goes_on(
    tree: TreeView<EntryNode>,
    dir: NodeRef,
    collected: EntrySize,
    child: EntryNode,
)
    requires
        visiting(tree, dir, collected),
        tree.slots.len() < usize::MAX,
        child.entry_type is File,
        child.sizes == child.metadata.own_size() || child.sizes == EntrySize::zero(),
        collected.fits_with(child.sizes),
    ensures
        visiting(tree.with_child(dir, child), dir, collected.plus(child.sizes)),
        tree.with_child(dir, child).ancestors(dir) == tree.ancestors(dir),
        forall|r: NodeRef| #[trigger]
            tree.contains(r) ==> tree.with_child(dir, child).contains(r) && tree.with_child(
                dir,
                child,
            ).node(r).data == tree.node(r).data,
        forall|r: NodeRef| #[trigger]
            tree.attached(r) ==> tree.with_child(dir, child).attached(r),
{
    let after = tree.with_child(dir, child);
    let leaf = tree.next_ref();
    lemma_with_child_sizes(tree, dir, child);
    assert forall|r: NodeRef| #[trigger] after.contains(r) && r != dir implies
        crate::aggregation::consistent_at(after, r) by {
        if r == leaf {
            assert(crate::aggregation::children_size(after, Seq::<NodeRef>::empty())
                == SizeSum::zero());
        } else {
            assert(tree.contains(r));
            assert(crate::aggregation::consistent_at(tree, r));
        }
    }
}

/// When the size collected has travelled up from the directory, its visit is
/// over and every size in the tree is right.
pub proof fn lemma_visit_ends(tree: TreeView<EntryNode>, dir: NodeRef, collected: EntrySize)
    requires
        visiting(tree, dir, collected),
        chain_can_shift(tree, tree.ancestors(dir), BackpropOperation::Add, collected),
    ensures
        shifted(tree, tree.ancestors(dir), BackpropOperation::Add, collected).wf(),
        sizes_consistent(shifted(tree, tree.ancestors(dir), BackpropOperation::Add, collected)),
{
    lemma_shift_restores(tree, dir, BackpropOperation::Add, collected);
}

/// A node that can gain a size can gain any smaller one.
pub proof fn lemma_can_gain_less(entry: EntryNode, more: EntrySize, less: EntrySize)
    requires
        can_shift(entry, BackpropOperation::Add, more),
        at_most(SizeSum::of(less), SizeSum::of(more)),
    ensures
        can_shift(entry, BackpropOperation::Add, less),
{
}

/// Two entries of one directory that are links to the same file, a file with
/// two links that the walk has not met before: the first is attached with its
/// size, the second with none, the directory collects the file's size once,
/// and the table is as it was before.
pub proof fn lemma_two_links_counted_once(
    start: Visit,
    dir: NodeRef,
    first: DirEntryRecord,
    second: DirEntryRecord,
)
    requires
        takes(Some(first)),
        takes(Some(second)),
        first.metadata->0.inode == second.metadata->0.inode,
        first.metadata->0.links == 2,
        second.metadata->0.links == 2,
        !start.links.contains_key(first.metadata->0.inode),
        start.collected.fits_with(first.metadata->0.own_size()),
    ensures
        ({
            let after = files_attached(start, dir, seq![Some(first), Some(second)]);
            &&& file_child(first, start.links).sizes == first.metadata->0.own_size()
            &&& file_child(second, entry_handled(start, dir, Some(first)).links).sizes
                == EntrySize::zero()
            &&& after.collected == start.collected.plus(first.metadata->0.own_size())
            &&& after.links == start.links
        }),
{
    let entries = seq![Some(first), Some(second)];
    lemma_files_attached_step(start, dir, entries, 0);
    lemma_files_attached_step(start, dir, entries, 1);
    assert(entries.take(0) =~= Seq::empty());
    assert(entries.take(2) =~= entries);
    let once = entry_handled(start, dir, Some(first));
    assert(files_attached(start, dir, entries.take(1)) == once);
    let twice = entry_handled(once, dir, Some(second));
    assert(twice.links =~= start.links);
}

} // verus!

//! The tree of entries that a walk of the filesystem fills, a user browses
//! and deletions shrink.
use vstd::prelude::*;
use std::path::PathBuf;
use crate::aggregation::{
    can_shift, chain_can_shift, lemma_shifted_frame, lemma_shifted_none, lemma_shifted_step,
    shifted, sizes_consistent, BackpropOperation, SizeSum,
};
use crate::entry_node::{DirEntryRecord, EntryMetadata, EntryNode, EntryNodeView};
use crate::entry_size::EntrySize;
use crate::entry_type::EntryType;
use crate::node::NodeRef;
use crate::deletion::{
    lemma_removal_ends, lemma_removal_goes_on, lemma_removal_starts, lemma_removed_run_step,
    lemma_removed_run_stops, lemma_removed_twice, removed_run, removing, settled, targets_of,
    Removal,
};
use crate::sorting::{
    comes_before, descending, lemma_descending, lemma_same_pairs, sort_descending,
    sort_for_listing,
};
use crate::tree::{Tree, TreeError, TreeView};
use crate::tree_walk_state::{TreeWalkAncestor, TreeWalkState};
use crate::visit::{
    at_most, dir_attached, file_child, files_attached, has_room, incoming, lemma_can_gain_less,
    lemma_files_attached_step, lemma_incoming_grows, lemma_visit_ends, lemma_visit_goes_on,
    lemma_visit_starts, visited, visiting, Visit,
};

verus! {

/// Why an operation on the tree of entries was refused.
#[derive(Clone, Copy, Debug, PartialEq, Eq, Structural)]
pub enum DiskoError {
    /// No current directory is set: the walk has not produced a root yet.
    NoCurrentDirectory,
    /// The current directory is the root, or its parent is gone.
    NoParent,
    /// The current directory has no child at the index asked for.
    NoSuchChild,
    /// An entry could not be deleted on disk.
    DeletionFailed,
    /// The tree contradicts itself. This is a fault, not a condition to
    /// recover from.
    Inconsistent(TreeError),
}

impl DiskoError {
    /// What went wrong, in words.
    pub open spec fn text(self) -> Seq<char> {
        match self {
            DiskoError::NoCurrentDirectory => "Current directory not set"@,
            DiskoError::NoParent => "Failed to get parent of current directory"@,
            DiskoError::NoSuchChild => "Provided index is out of bounds."@,
            DiskoError::DeletionFailed => "Failed to delete an entry on disk."@,
            DiskoError::Inconsistent(fault) => fault.text(),
        }
    }

    /// What went wrong, in words.
    pub fn message(&self) -> (message: &'static str)
        ensures
            message@ == self.text(),
    {
        match self {
            DiskoError::NoCurrentDirectory => "Current directory not set",
            DiskoError::NoParent => "Failed to get parent of current directory",
            DiskoError::NoSuchChild => "Provided index is out of bounds.",
            DiskoError::DeletionFailed => "Failed to delete an entry on disk.",
            DiskoError::Inconsistent(fault) => fault.message(),
        }
    }
}

/// How the visit of a directory ended.
#[derive(Clone, Copy, Debug, PartialEq, Eq, Structural)]
pub enum DirOutcome {
    /// Nothing was done: this was the entry that stands for the parent of the
    /// walk's root, or the directory's metadata could not be read or is not
    /// that of a directory.
    Skipped,
    /// The directory and its files are in the tree, under this node.
    Visited(NodeRef),
    /// The directory was to become the root, and the tree has a root.
    RootAlreadySet,
    /// The sizes would leave `u64`.
    TooLarge,
}

/// An entry that is to be deleted on disk: where it stands among the
/// children of the current directory, and what to delete.
#[derive(Debug)]
pub struct DeletionTarget {
    pub index: usize,
    pub path: PathBuf,
    pub entry_type: EntryType,
}

/// What a [`DiskoTree`] is, as mathematics.
pub struct DiskoTreeView {
    pub tree: TreeView<EntryNode>,
    pub current_directory: Option<NodeRef>,
    pub root: PathBuf,
    pub traversal_threads: usize,
}

/// The tree of entries below a root path, with the sizes of all that a walk
/// has found so far, and the directory that a user is looking at.
#[derive(Debug)]
pub struct DiskoTree {
    tree: Tree<EntryNode>,
    current_directory: Option<NodeRef>,
    root: PathBuf,
    traversal_threads: usize,
}

impl View for DiskoTree {
    type V = DiskoTreeView;

    closed spec fn view(&self) -> DiskoTreeView {
        DiskoTreeView {
            tree: self.tree@,
            current_directory: self.current_directory,
            root: self.root,
            traversal_threads: self.traversal_threads,
        }
    }
}

/// The size by which a listing is ordered.
pub open spec fn listing_key(view: EntryNodeView, by_disk_size: bool) -> u64 {
    if by_disk_size {
        view.sizes.disk_size
    } else {
        view.sizes.apparent_size
    }
}

/// `view` shows one of the children of `node` and holds that child's
/// position.
pub open spec fn lists_child(tree: TreeView<EntryNode>, node: NodeRef, view: EntryNodeView) -> bool {
    &&& view.index_to_original_node matches Some(position)
    &&& position < tree.node(node).children.len()
    &&& view.shows(tree.node(tree.node(node).children[position as int]).data)
}

/// `views` is the listing of the children of `node`: one view per child,
/// larger sizes first, and among equal sizes in the order of the children.
pub open spec fn is_listing(
    tree: TreeView<EntryNode>,
    node: NodeRef,
    by_disk_size: bool,
    views: Seq<EntryNodeView>,
) -> bool {
    &&& views.len() == tree.node(node).children.len()
    &&& forall|k: int| 0 <= k < views.len() ==> lists_child(tree, node, #[trigger] views[k])
    &&& forall|j: int, k: int|
        0 <= j < k < views.len() ==> {
            let first = #[trigger] views[j];
            let second = #[trigger] views[k];
            &&& first.index_to_original_node->0 != second.index_to_original_node->0
            &&& comes_before(
                (listing_key(first, by_disk_size), first.index_to_original_node->0),
                (listing_key(second, by_disk_size), second.index_to_original_node->0),
            )
        }
}

impl DiskoTree {
    /// Well-formedness: the tree is well-formed, every size in it is right,
    /// and the current directory, if set, is in the tree: alive, and linked
    /// to the root through its parents.
    pub open spec fn wf(&self) -> bool {
        &&& self@.tree.wf()
        &&& sizes_consistent(self@.tree)
        &&& self@.current_directory matches Some(current) ==> self@.tree.attached(current)
    }

    /// An empty tree for a walk of `root` with `traversal_threads` workers.
    pub fn new(root: PathBuf, traversal_threads: usize) -> (disko: Self)
        ensures
            disko.wf(),
            disko@ == (DiskoTreeView {
                tree: TreeView::<EntryNode>::empty(),
                current_directory: None,
                root,
                traversal_threads,
            }),
    {
        DiskoTree { tree: Tree::new(), current_directory: None, root, traversal_threads }
    }

    /// The path that the walk starts at.
    pub fn root_path(&self) -> (path: PathBuf)
        ensures
            path == self@.root,
    {
        self.root.clone()
    }

    /// The number of workers that the walk is to use.
    pub fn traversal_threads(&self) -> (threads: usize)
        ensures
            threads == self@.traversal_threads,
    {
        self.traversal_threads
    }

    /// Read access to the tree.
    pub fn tree(&self) -> (tree: &Tree<EntryNode>)
        ensures
            tree@ == self@.tree,
    {
        &self.tree
    }

    /// The directory that the user is looking at.
    pub fn current_directory(&self) -> (current: Option<NodeRef>)
        ensures
            current == self@.current_directory,
    {
        self.current_directory
    }

    /// The listing of the children of `node`: a view of each child with its
    /// position, the largest first, by disk size or by apparent size.
    pub fn get_children(&self, node: NodeRef, sort_by_disk_size: bool) -> (children: Vec<
        EntryNodeView,
    >)
        requires
            self.wf(),
            self@.tree.contains(node),
        ensures
            is_listing(self@.tree, node, sort_by_disk_size, children@),
    {
        let ghost tree = self@.tree;
        let parent = self.tree.node(node);
        proof {
            assert(tree.links_wf(node));
        }
        let count = parent.children.len();
        let mut keys: Vec<(u64, usize)> = Vec::new();
        let mut i: usize = 0;
        while i < count
            invariant
                i <= count,
                count == parent@.children.len(),
                parent@ == tree.node(node),
                tree == self@.tree,
                tree.links_wf(node),
                keys@.len() == i,
                forall|k: int|
                    0 <= k < i ==> (#[trigger] keys@[k]).1 == k && keys@[k].0 == (
                    if sort_by_disk_size {
                        tree.node(parent@.children[k]).data.sizes.disk_size
                    } else {
                        tree.node(parent@.children[k]).data.sizes.apparent_size
                    }),
            decreases count - i,
        {
            proof {
                assert(tree.child_link_wf(node, parent@.children[i as int]));
            }
            let child = self.tree.node(parent.children[i]);
            let key = if sort_by_disk_size {
                child.data.sizes.disk_size
            } else {
                child.data.sizes.apparent_size
            };
            keys.push((key, i));
            i += 1;
        }
        let ghost unsorted = keys@;
        let order = sort_for_listing(keys);
        proof {
            lemma_same_pairs(order@, unsorted);
            assert(unsorted.no_duplicates());
            assert forall|k: int| 0 <= k < order@.len() implies (#[trigger] order@[k]).1 < count
                && unsorted[order@[k].1 as int] == order@[k] by {
                assert(order@.contains(order@[k]));
                assert(unsorted.contains(order@[k]));
                let at = choose|at: int| 0 <= at < unsorted.len() && unsorted[at] == order@[k];
                assert(unsorted[at].1 == at);
            }
        }
        let mut children: Vec<EntryNodeView> = Vec::new();
        let mut k: usize = 0;
        while k < count
            invariant
                k <= count,
                count == parent@.children.len(),
                count == order@.len(),
                parent@ == tree.node(node),
                tree == self@.tree,
                tree.links_wf(node),
                children@.len() == k,
                forall|m: int|
                    0 <= m < order@.len() ==> (#[trigger] order@[m]).1 < count
                        && unsorted[order@[m].1 as int] == order@[m],
                forall|m: int|
                    0 <= m < count ==> (#[trigger] unsorted[m]).1 == m && unsorted[m].0 == (
                    if sort_by_disk_size {
                        tree.node(parent@.children[m]).data.sizes.disk_size
                    } else {
                        tree.node(parent@.children[m]).data.sizes.apparent_size
                    }),
                unsorted.len() == count,
                forall|m: int|
                    0 <= m < k ==> lists_child(tree, node, #[trigger] children@[m])
                        && children@[m].index_to_original_node == Some(order@[m].1)
                        && listing_key(children@[m], sort_by_disk_size) == order@[m].0,
            decreases count - k,
        {
            let position = order[k].1;
            proof {
                assert(order@[k as int].1 < count);
                assert(tree.child_link_wf(node, parent@.children[position as int]));
                assert(unsorted[position as int] == order@[k as int]);
            }
            let child = self.tree.node(parent.children[position]);
            let mut entry = EntryNodeView::from_entry_node(&child.data);
            entry.index_to_original_node = Some(position);
            children.push(entry);
            k += 1;
        }
        proof {
            assert forall|j: int, k: int| 0 <= j < k < children@.len() implies {
                let first = #[trigger] children@[j];
                let second = #[trigger] children@[k];
                &&& first.index_to_original_node->0 != second.index_to_original_node->0
                &&& comes_before(
                    (listing_key(first, sort_by_disk_size), first.index_to_original_node->0),
                    (listing_key(second, sort_by_disk_size), second.index_to_original_node->0),
                )
            } by {
                assert(comes_before(order@[j], order@[k]));
                assert(order@[j] != order@[k]);
                assert(unsorted[order@[j].1 as int] == order@[j]);
                assert(unsorted[order@[k].1 as int] == order@[k]);
            }
        }
        children
    }

    /// Moves the current directory to its parent.
    ///
    /// Fails, leaving the current directory where it is, when none is set,
    /// when it is the root, and when its parent is gone.
    pub fn switch_to_parent_directory(&mut self) -> (res: Result<(), DiskoError>)
        requires
            old(self).wf(),
        ensures
            final(self).wf(),
            final(self)@.tree == old(self)@.tree,
            final(self)@.root == old(self)@.root,
            final(self)@.traversal_threads == old(self)@.traversal_threads,
            match old(self)@.current_directory {
                None => res == Err::<(), DiskoError>(DiskoError::NoCurrentDirectory)
                    && final(self)@.current_directory is None,
                Some(current) => match old(self)@.tree.parent(current) {
                    Some(parent) => res is Ok && final(self)@.current_directory == Some(parent),
                    None => res == Err::<(), DiskoError>(DiskoError::NoParent)
                        && final(self)@.current_directory == Some(current),
                },
            },
    {
        let Some(current) = self.current_directory else {
            return Err(DiskoError::NoCurrentDirectory);
        };
        let Some(parent) = self.tree.node(current).get_parent() else {
            return Err(DiskoError::NoParent);
        };
        if !self.tree.contains(parent) {
            return Err(DiskoError::NoParent);
        }
        proof {
            self@.tree.lemma_attached_with_parent(current, parent);
        }
        self.current_directory = Some(parent);
        Ok(())
    }

    /// Moves the current directory to its child at `index`.
    ///
    /// Fails when no current directory is set and when `index` is out of
    /// bounds; after a failure no current directory is set.
    pub fn switch_to_subdirectory(&mut self, index: usize) -> (res: Result<(), DiskoError>)
        requires
            old(self).wf(),
        ensures
            final(self).wf(),
            final(self)@.tree == old(self)@.tree,
            final(self)@.root == old(self)@.root,
            final(self)@.traversal_threads == old(self)@.traversal_threads,
            match old(self)@.current_directory {
                None => res == Err::<(), DiskoError>(DiskoError::NoCurrentDirectory)
                    && final(self)@.current_directory is None,
                Some(current) => if index < old(self)@.tree.node(current).children.len() {
                    res is Ok && final(self)@.current_directory == Some(
                        old(self)@.tree.node(current).children[index as int],
                    )
                } else {
                    res == Err::<(), DiskoError>(DiskoError::NoSuchChild)
                        && final(self)@.current_directory is None
                },
            },
    {
        let Some(current) = self.current_directory.take() else {
            return Err(DiskoError::NoCurrentDirectory);
        };
        let Some(subdir) = self.tree.node(current).get_child_at(index) else {
            return Err(DiskoError::NoSuchChild);
        };
        proof {
            assert(old(self)@.tree.attached(current));
            assert(self@.tree.links_wf(current));
            assert(self@.tree.child_link_wf(current, subdir));
            self@.tree.lemma_attached_with_parent(subdir, current);
        }
        self.current_directory = Some(subdir);
        Ok(())
    }

    /// The view of the current directory and the listing of its children.
    ///
    /// Where no current directory is set, the root becomes the current
    /// directory first. `None` while the tree has no root.
    pub fn get_current_dir_view(&mut self, sort_by_disk_size: bool) -> (res: Option<
        (EntryNodeView, Vec<EntryNodeView>),
    >)
        requires
            old(self).wf(),
        ensures
            final(self).wf(),
            final(self)@.tree == old(self)@.tree,
            final(self)@.root == old(self)@.root,
            final(self)@.traversal_threads == old(self)@.traversal_threads,
            final(self)@.current_directory == match old(self)@.current_directory {
                Some(current) => Some(current),
                None => old(self)@.tree.root,
            },
            match res {
                Some((directory, children)) => {
                    &&& final(self)@.current_directory matches Some(current)
                    &&& directory.shows(old(self)@.tree.node(current).data)
                    &&& directory.index_to_original_node is None
                    &&& is_listing(old(self)@.tree, current, sort_by_disk_size, children@)
                },
                None => final(self)@.current_directory is None,
            },
    {
        if self.current_directory.is_none() {
            proof {
                match self@.tree.root {
                    Some(root) => {
                        self@.tree.lemma_ancestors_unfold(root);
                    },
                    None => {},
                }
            }
            self.current_directory = self.tree.get_root();
        }
        let Some(current) = self.current_directory else {
            return None;
        };
        let children = self.get_children(current, sort_by_disk_size);
        let directory = EntryNodeView::from_entry_node(&self.tree.node(current).data);
        Some((directory, children))
    }

    /// The listing of the children of the current directory's child at
    /// `index`. The current directory stays where it is.
    ///
    /// `None` when no current directory is set and when `index` is out of
    /// bounds.
    pub fn get_subdir_of_current_dir_view(&self, index: usize, sort_by_disk_size: bool) -> (res:
        Option<Vec<EntryNodeView>>)
        requires
            self.wf(),
        ensures
            match res {
                Some(children) => {
                    &&& self@.current_directory matches Some(current)
                    &&& index < self@.tree.node(current).children.len()
                    &&& is_listing(
                        self@.tree,
                        self@.tree.node(current).children[index as int],
                        sort_by_disk_size,
                        children@,
                    )
                },
                None => !(self@.current_directory matches Some(current) && index
                    < self@.tree.node(current).children.len()),
            },
    {
        let Some(current) = self.current_directory else {
            return None;
        };
        let Some(subdir) = self.tree.node(current).get_child_at(index) else {
            return None;
        };
        proof {
            assert(self@.tree.links_wf(current));
            assert(self@.tree.child_link_wf(current, subdir));
        }
        Some(self.get_children(subdir, sort_by_disk_size))
    }

    /// Carries `size` from `node` up to the topmost node that parent links
    /// reach: every node on the way, `node` included, gains or loses `size`.
    /// Nothing else in the tree changes.
    pub fn backprop_size(
        tree: &mut Tree<EntryNode>,
        node: NodeRef,
        size: EntrySize,
        operation: BackpropOperation,
    )
        requires
            old(tree).wf(),
            chain_can_shift(old(tree)@, old(tree)@.ancestors(node), operation, size),
        ensures
            final(tree).wf(),
            final(tree)@ == shifted(old(tree)@, old(tree)@.ancestors(node), operation, size),
    {
        let ghost before = tree@;
        let ghost chain = before.ancestors(node);
        let ghost mut done: int = 0;
        let mut iter = tree.iter_to_root_from_node(node);
        proof {
            lemma_shifted_none(before, operation, size);
            assert(chain.take(0) =~= Seq::<NodeRef>::empty());
            assert(chain.skip(0) =~= chain);
            before.lemma_ancestors_distinct(node);
            before.lemma_ancestors_alive(node);
        }
        loop
            invariant
                before.wf(),
                chain == before.ancestors(node),
                chain.no_duplicates(),
                forall|i: int| 0 <= i < chain.len() ==> before.contains(#[trigger] chain[i]),
                chain_can_shift(before, chain, operation, size),
                0 <= done <= chain.len(),
                tree.wf(),
                tree@ == shifted(before, chain.take(done), operation, size),
                iter.remaining(tree@) == chain.skip(done),
            ensures
                tree.wf(),
                tree@ == shifted(before, chain, operation, size),
            decreases chain.len() - done,
        {
            let ghost reached = tree@;
            match iter.next(tree) {
                Some(current) => {
                    proof {
                        assert(chain.skip(done) == seq![current] + iter.remaining(tree@));
                        assert(chain.skip(done).len() >= 1);
                        assert(chain.skip(done)[0] == current);
                        assert(chain[done] == current);
                        lemma_shifted_step(before, chain, done, operation, size);
                        assert(can_shift(before.node(chain[done]).data, operation, size));
                    }
                    let data = tree.data_mut(current);
                    match operation {
                        BackpropOperation::Add => {
                            data.sizes.add_assign(size);
                        },
                        BackpropOperation::Subtract => {
                            data.sizes.sub_assign(size);
                        },
                    }
                    proof {
                        assert(tree@ == shifted(before, chain.take(done + 1), operation, size));
                        lemma_shifted_frame(before, chain.take(done + 1), operation, size);
                        lemma_shifted_frame(before, chain.take(done), operation, size);
                        assert(chain.skip(done).skip(1) =~= chain.skip(done + 1));
                        match iter.current() {
                            Some(next) => {
                                tree@.lemma_ancestors_same_links(reached, next);
                            },
                            None => {},
                        }
                        assert(iter.remaining(tree@) == iter.remaining(reached));
                        assert(iter.remaining(reached) =~= chain.skip(done).skip(1));
                        done = done + 1;
                    }
                },
                None => {
                    proof {
                        assert(chain.skip(done).len() == 0);
                        assert(chain.take(done) =~= chain);
                    }
                    break ;
                },
            }
        }
    }

    /// Whether every node from `node` up to the topmost one can gain `size`
    /// without leaving `u64`.
    pub fn chain_fits(tree: &Tree<EntryNode>, node: NodeRef, size: EntrySize) -> (fits: bool)
        requires
            tree.wf(),
        ensures
            fits == chain_can_shift(
                tree@,
                tree@.ancestors(node),
                BackpropOperation::Add,
                size,
            ),
    {
        let ghost chain = tree@.ancestors(node);
        let ghost mut done: int = 0;
        let mut iter = tree.iter_to_root_from_node(node);
        proof {
            assert(chain.skip(0) =~= chain);
        }
        loop
            invariant
                tree.wf(),
                chain == tree@.ancestors(node),
                0 <= done <= chain.len(),
                iter.remaining(tree@) == chain.skip(done),
                forall|i: int|
                    0 <= i < done ==> can_shift(
                        tree@.node(#[trigger] chain[i]).data,
                        BackpropOperation::Add,
                        size,
                    ),
            ensures
                chain_can_shift(tree@, chain, BackpropOperation::Add, size),
            decreases chain.len() - done,
        {
            match iter.next(tree) {
                Some(current) => {
                    proof {
                        assert(chain.skip(done) == seq![current] + iter.remaining(tree@));
                        assert(chain.skip(done).len() >= 1);
                        assert(chain.skip(done)[0] == current);
                        assert(chain[done] == current);
                        assert(chain.skip(done).skip(1) =~= chain.skip(done + 1));
                    }
                    if tree.node(current).data.sizes.checked_add(size).is_none() {
                        return false;
                    }
                    proof {
                        done = done + 1;
                    }
                },
                None => {
                    proof {
                        assert(chain.skip(done).len() == 0);
                    }
                    break ;
                },
            }
        }
        true
    }

    /// The most that a visit of a directory of size `dir_size` with the
    /// entries `children` can add to the tree, or `None` when that leaves
    /// `u64`.
    pub fn incoming_size(dir_size: EntrySize, children: &Vec<Option<DirEntryRecord>>) -> (most:
        Option<EntrySize>)
        ensures
            match most {
                Some(size) => incoming(dir_size, children@).fits() && SizeSum::of(size) == incoming(
                    dir_size,
                    children@,
                ),
                None => !incoming(dir_size, children@).fits(),
            },
    {
        let mut most = dir_size;
        let mut i: usize = 0;
        proof {
            assert(children@.take(0) =~= Seq::empty());
        }
        while i < children.len()
            invariant
                i <= children.len(),
                SizeSum::of(most) == incoming(dir_size, children@.take(i as int)),
            decreases children.len() - i,
        {
            proof {
                lemma_files_attached_step(
                    Visit { tree: TreeView::empty(), links: Map::empty(), collected: dir_size },
                    NodeRef { index: 0 },
                    children@,
                    i as int,
                );
                lemma_incoming_grows(dir_size, children@, i + 1);
            }
            match &children[i] {
                Some(record) => {
                    if record.is_file() {
                        match record.metadata {
                            Some(metadata) => {
                                match most.checked_add(metadata.size()) {
                                    Some(sum) => {
                                        most = sum;
                                    },
                                    None => {
                                        return None;
                                    },
                                }
                            },
                            None => {},
                        }
                    }
                },
                None => {},
            }
            i += 1;
        }
        proof {
            assert(children@.take(children.len() as int) =~= children@);
        }
        Some(most)
    }

    /// Puts the node for a directory where the walk state says: into the root
    /// slot, or below the parent that the walk came from.
    pub fn attach_to_tree(tree: &mut Tree<EntryNode>, state: &TreeWalkState, node: EntryNode) -> (res:
        Result<NodeRef, TreeError>)
        requires
            old(tree).wf(),
            state.spec_ancestor() matches TreeWalkAncestor::Parent(parent) ==> old(tree)@.contains(
                parent,
            ),
        ensures
            final(tree).wf(),
            match res {
                Ok(attached) => {
                    &&& attached == old(tree)@.next_ref()
                    &&& old(tree)@.slots.len() < usize::MAX
                    &&& state.spec_ancestor() is Tree ==> old(tree)@.root is None
                    &&& final(tree)@ == dir_attached(old(tree)@, state.spec_ancestor(), node)
                },
                Err(e) => {
                    &&& e == TreeError::AlreadyHasRoot
                    &&& state.spec_ancestor() is Tree
                    &&& old(tree)@.root is Some
                    &&& final(tree)@ == old(tree)@
                },
            },
    {
        match state.get_ancestor() {
            TreeWalkAncestor::Parent(parent) => Ok(tree.attach_child(parent, node)),
            TreeWalkAncestor::Tree => tree.create_node_and_set_root(node),
        }
    }

    /// Takes one directory of a walk into the tree.
    ///
    /// `depth` is `None` for the entry that stands for the parent of the
    /// walk's root, which is passed over. `dir_metadata` is `None` when the
    /// directory's metadata could not be read; such a directory, and one
    /// whose metadata is not that of a directory, is passed over too.
    /// `children` are the directory's entries, `None` for one that could not
    /// be read.
    ///
    /// Otherwise the directory gets a node where `state` says, every regular
    /// file among `children` whose metadata could be read becomes a leaf
    /// below it, with no size where it is a further link to a file counted
    /// before, and the directory's own size together with the sizes of those
    /// leaves is added to the directory and to every node above it. `state`
    /// then names the directory as the ancestor for what the walk finds
    /// inside it.
    ///
    /// When the tree has a root and the directory was to become one, and when
    /// the sizes would leave `u64`, nothing changes and the outcome says so.
    pub fn process_dir(
        &mut self,
        depth: Option<usize>,
        dir_name: String,
        dir_path: PathBuf,
        dir_metadata: Option<EntryMetadata>,
        state: &mut TreeWalkState,
        children: &Vec<Option<DirEntryRecord>>,
    ) -> (outcome: DirOutcome)
        requires
            old(self).wf(),
            old(state).wf(),
            old(state).spec_ancestor() matches TreeWalkAncestor::Parent(parent) ==> old(
                self,
            )@.tree.contains(parent),
        ensures
            final(self).wf(),
            final(state).wf(),
            final(self)@.current_directory == old(self)@.current_directory,
            final(self)@.root == old(self)@.root,
            final(self)@.traversal_threads == old(self)@.traversal_threads,
            match outcome {
                DirOutcome::Visited(node) => {
                    let dir_node = EntryNode {
                        name: dir_name,
                        path: dir_path,
                        sizes: EntrySize::zero(),
                        descendants_count: 0,
                        entry_type: EntryType::Directory,
                        metadata: dir_metadata->0,
                    };
                    let after = visited(
                        old(self)@.tree,
                        old(state).unvisited_links(),
                        old(state).spec_ancestor(),
                        dir_node,
                        dir_metadata->0.own_size(),
                        children@,
                    );
                    &&& depth is Some
                    &&& dir_metadata matches Some(m) && m.is_dir
                    &&& old(state).spec_ancestor() is Tree ==> old(self)@.tree.root is None
                    &&& has_room(
                        old(self)@.tree,
                        old(state).spec_ancestor(),
                        dir_metadata->0.own_size(),
                        children@,
                    )
                    &&& node == old(self)@.tree.next_ref()
                    &&& final(self)@.tree == after.tree
                    &&& final(state).unvisited_links() == after.links
                    &&& final(state).spec_ancestor() == TreeWalkAncestor::Parent(node)
                },
                other => {
                    &&& final(self)@.tree == old(self)@.tree
                    &&& final(state).unvisited_links() == old(state).unvisited_links()
                    &&& final(state).spec_ancestor() == old(state).spec_ancestor()
                    &&& other == if depth is None || !(dir_metadata matches Some(m) && m.is_dir) {
                        DirOutcome::Skipped
                    } else if old(state).spec_ancestor() is Tree && old(self)@.tree.root is Some {
                        DirOutcome::RootAlreadySet
                    } else {
                        DirOutcome::TooLarge
                    }
                    &&& other is TooLarge ==> !has_room(
                        old(self)@.tree,
                        old(state).spec_ancestor(),
                        dir_metadata->0.own_size(),
                        children@,
                    )
                },
            },
    {
        // The entry above the root of the walk is no part of the tree.
        if depth.is_none() {
            return DirOutcome::Skipped;
        }
        let Some((dir_node, dir_size)) = EntryNode::new_dir(dir_name, dir_path, dir_metadata) else {
            return DirOutcome::Skipped;
        };
        let ancestor = state.get_ancestor();
        match ancestor {
            TreeWalkAncestor::Tree => {
                if self.tree.get_root().is_some() {
                    return DirOutcome::RootAlreadySet;
                }
            },
            TreeWalkAncestor::Parent(_) => {},
        }
        let Some(most) = Self::incoming_size(dir_size, children) else {
            return DirOutcome::TooLarge;
        };
        match ancestor {
            TreeWalkAncestor::Parent(parent) => {
                if !Self::chain_fits(&self.tree, parent, most) {
                    return DirOutcome::TooLarge;
                }
            },
            TreeWalkAncestor::Tree => {},
        }
        let ghost before = self@.tree;
        let ghost links_before = state.unvisited_links();
        let ghost entry = dir_node;
        let ghost above = match ancestor {
            TreeWalkAncestor::Tree => Seq::<NodeRef>::empty(),
            TreeWalkAncestor::Parent(parent) => before.ancestors(parent),
        };
        proof {
            assert(SizeSum::of(most) == incoming(dir_size, children@));
            assert(most == (EntrySize {
                apparent_size: incoming(dir_size, children@).apparent as u64,
                disk_size: incoming(dir_size, children@).disk as u64,
            }));
        }

        // The node of the directory.
        let Ok(node) = Self::attach_to_tree(&mut self.tree, state, dir_node) else {
            return DirOutcome::RootAlreadySet;
        };
        let ghost start = Visit { tree: self@.tree, links: links_before, collected: dir_size };
        proof {
            lemma_visit_starts(before, ancestor, entry, dir_size);
            assert(children@.take(0) =~= Seq::empty());
            lemma_incoming_grows(dir_size, children@, 0);
            before.lemma_ancestors_alive(
                match ancestor {
                    TreeWalkAncestor::Tree => node,
                    TreeWalkAncestor::Parent(parent) => parent,
                },
            );
        }

        // The files of the directory, and what they add up to.
        let mut size = dir_size;
        let mut i: usize = 0;
        while i < children.len()
            invariant
                i <= children.len(),
                self@.current_directory == old(self)@.current_directory,
                self@.root == old(self)@.root,
                self@.traversal_threads == old(self)@.traversal_threads,
                state.wf(),
                state.spec_ancestor() == ancestor,
                self.tree.wf(),
                visiting(self@.tree, node, size),
                files_attached(start, node, children@.take(i as int)) == (Visit {
                    tree: self@.tree,
                    links: state.unvisited_links(),
                    collected: size,
                }),
                start.collected == dir_size,
                at_most(SizeSum::of(size), incoming(dir_size, children@.take(i as int))),
                SizeSum::of(most) == incoming(dir_size, children@),
                self@.tree.ancestors(node) == seq![node] + above,
                forall|k: int|
                    0 <= k < above.len() ==> self@.tree.contains(#[trigger] above[k])
                        && self@.tree.node(above[k]).data == before.node(above[k]).data,
                forall|r: NodeRef| #[trigger] before.contains(r) ==> self@.tree.contains(r),
                self@.current_directory matches Some(current) ==> self@.tree.attached(current),
            decreases children.len() - i,
        {
            proof {
                lemma_files_attached_step(start, node, children@, i as int);
                lemma_incoming_grows(dir_size, children@, i + 1);
            }
            match &children[i] {
                Some(record) => {
                    if record.is_file() {
                        match EntryNode::try_from(record) {
                            Ok(child_node) => {
                                let mut child_node = child_node;
                                let ghost links = state.unvisited_links();
                                if state.file_has_been_seen(
                                    child_node.metadata.inode,
                                    child_node.metadata.links,
                                ) {
                                    child_node.sizes = EntrySize::default();
                                }
                                let ghost child = child_node;
                                let ghost reached = self@.tree;
                                let ghost collected = size;
                                proof {
                                    assert(child == file_child(*record, links));
                                }
                                size.add_assign(child_node.sizes);
                                self.tree.attach_child(node, child_node);
                                proof {
                                    lemma_visit_goes_on(reached, node, collected, child);
                                }
                            },
                            Err(_) => {},
                        }
                    }
                },
                None => {},
            }
            i += 1;
        }

        // Up the tree with it, from the directory itself to the root.
        proof {
            assert(children@.take(children.len() as int) =~= children@);
            let chain = self@.tree.ancestors(node);
            assert forall|k: int| 0 <= k < chain.len() implies can_shift(
                self@.tree.node(#[trigger] chain[k]).data,
                BackpropOperation::Add,
                size,
            ) by {
                if k > 0 {
                    assert(chain[k] == above[k - 1]);
                    assert(can_shift(before.node(above[k - 1]).data, BackpropOperation::Add, most));
                    lemma_can_gain_less(before.node(above[k - 1]).data, most, size);
                }
            }
            lemma_visit_ends(self@.tree, node, size);
            lemma_shifted_frame(self@.tree, chain, BackpropOperation::Add, size);
            match self@.current_directory {
                Some(current) => {
                    shifted(
                        self@.tree,
                        chain,
                        BackpropOperation::Add,
                        size,
                    ).lemma_ancestors_same_links(self@.tree, current);
                },
                None => {},
            }
        }
        Self::backprop_size(&mut self.tree, node, size, BackpropOperation::Add);

        // What the walk finds inside this directory goes below it.
        state.set_ancestor(TreeWalkAncestor::Parent(node));
        DirOutcome::Visited(node)
    }

    /// Some of `indices` is no position of a child of `node`.
    pub open spec fn out_of_bounds(tree: TreeView<EntryNode>, node: NodeRef, indices: Seq<usize>) -> bool {
        exists|k: int| 0 <= k < indices.len() && #[trigger] indices[k] >= tree.node(node).children.len()
    }

    /// What is to be deleted on disk for the children of the current
    /// directory at `indices`, in the order in which to delete: from the
    /// largest index down.
    ///
    /// Fails when no current directory is set, and when one of `indices` is
    /// out of bounds.
    pub fn deletion_targets(&self, indices: &Vec<usize>) -> (res: Result<
        Vec<DeletionTarget>,
        DiskoError,
    >)
        requires
            self.wf(),
        ensures
            match res {
                Ok(targets) => {
                    let order = descending(indices@);
                    &&& self@.current_directory matches Some(current)
                    &&& !Self::out_of_bounds(self@.tree, current, indices@)
                    &&& targets@.len() == order.len()
                    &&& forall|k: int|
                        0 <= k < targets@.len() ==> {
                            let child = self@.tree.node(
                                self@.tree.node(current).children[order[k] as int],
                            );
                            &&& (#[trigger] targets@[k]).index == order[k]
                            &&& targets@[k].path == child.data.path
                            &&& targets@[k].entry_type == child.data.entry_type
                        }
                },
                Err(e) => match self@.current_directory {
                    None => e == DiskoError::NoCurrentDirectory,
                    Some(current) => e == DiskoError::NoSuchChild && Self::out_of_bounds(
                        self@.tree,
                        current,
                        indices@,
                    ),
                },
            },
    {
        let Some(current) = self.current_directory else {
            return Err(DiskoError::NoCurrentDirectory);
        };
        let parent = self.tree.node(current);
        let order = sort_descending(indices);
        proof {
            lemma_descending(indices@);
            assert(self@.tree.links_wf(current));
        }
        let mut targets: Vec<DeletionTarget> = Vec::new();
        let mut k: usize = 0;
        while k < order.len()
            invariant
                k <= order.len(),
                order@ == descending(indices@),
                self@.current_directory == Some(current),
                parent@ == self@.tree.node(current),
                self@.tree.links_wf(current),
                forall|x: usize| order@.contains(x) <==> indices@.contains(x),
                targets@.len() == k,
                forall|j: int| 0 <= j < k ==> order@[j] < parent@.children.len(),
                forall|j: int|
                    0 <= j < k ==> {
                        let child = self@.tree.node(parent@.children[order@[j] as int]);
                        &&& (#[trigger] targets@[j]).index == order@[j]
                        &&& targets@[j].path == child.data.path
                        &&& targets@[j].entry_type == child.data.entry_type
                    },
            decreases order.len() - k,
        {
            let index = order[k];
            let Some(child) = parent.get_child_at(index) else {
                proof {
                    assert(order@.contains(index));
                    assert(indices@.contains(index));
                    let witness = choose|w: int| 0 <= w < indices@.len() && indices@[w] == index;
                    assert(indices@[witness] >= self@.tree.node(current).children.len());
                }
                return Err(DiskoError::NoSuchChild);
            };
            proof {
                assert(self@.tree.child_link_wf(current, child));
            }
            let entry = &self.tree.node(child).data;
            targets.push(
                DeletionTarget { index, path: entry.path.clone(), entry_type: entry.entry_type },
            );
            k += 1;
        }
        proof {
            if Self::out_of_bounds(self@.tree, current, indices@) {
                let bad = choose|bad: int|
                    0 <= bad < indices@.len() && #[trigger] indices@[bad]
                        >= self@.tree.node(current).children.len();
                assert(indices@.contains(indices@[bad]));
                assert(order@.contains(indices@[bad]));
            }
        }
        Ok(targets)
    }

    /// Takes the children of the current directory at `indices` out of the
    /// tree, after the first `deleted` of them, counted from the largest
    /// index down, were deleted on disk, and takes their sizes off the
    /// current directory and every node above it.
    ///
    /// Only what was deleted on disk leaves the tree. With fewer deleted than
    /// asked for, the rest stays and the result is
    /// [`DiskoError::DeletionFailed`]. A child that cannot leave because it
    /// has left already stops the removal with
    /// [`DiskoError::Inconsistent`]; the sizes of those that left before it
    /// are still taken off.
    ///
    /// Fails, changing nothing, when no current directory is set, and when
    /// one of `indices` is out of bounds.
    pub fn delete_entries(&mut self, indices: &Vec<usize>, deleted: usize) -> (res: Result<
        (),
        DiskoError,
    >)
        requires
            old(self).wf(),
        ensures
            final(self).wf(),
            final(self)@.current_directory == old(self)@.current_directory,
            final(self)@.root == old(self)@.root,
            final(self)@.traversal_threads == old(self)@.traversal_threads,
            match old(self)@.current_directory {
                None => res == Err::<(), DiskoError>(DiskoError::NoCurrentDirectory)
                    && final(self)@.tree == old(self)@.tree,
                Some(current) => if Self::out_of_bounds(old(self)@.tree, current, indices@) {
                    res == Err::<(), DiskoError>(DiskoError::NoSuchChild) && final(self)@.tree
                        == old(self)@.tree
                } else {
                    let order = descending(indices@);
                    let run = removed_run(
                        old(self)@.tree,
                        targets_of(old(self)@.tree, current, order),
                        if deleted < order.len() {
                            deleted as nat
                        } else {
                            order.len()
                        },
                    );
                    &&& final(self)@.tree == settled(run, current)
                    &&& res == match run.fault {
                        Some(fault) => Err::<(), DiskoError>(DiskoError::Inconsistent(fault)),
                        None => if deleted < order.len() {
                            Err::<(), DiskoError>(DiskoError::DeletionFailed)
                        } else {
                            Ok::<(), DiskoError>(())
                        },
                    }
                },
            },
    {
        let Some(current) = self.current_directory else {
            return Err(DiskoError::NoCurrentDirectory);
        };
        let ghost before = self@.tree;
        // The children as they are now: removing one must not move the others.
        let children = self.tree.node(current).get_children();
        let order = sort_descending(indices);
        proof {
            lemma_descending(indices@);
            assert(before.links_wf(current));
        }
        let mut checked: usize = 0;
        while checked < order.len()
            invariant
                checked <= order.len(),
                forall|x: usize| order@.contains(x) <==> indices@.contains(x),
                forall|j: int| 0 <= j < checked ==> order@[j] < children@.len(),
                children@ == before.node(current).children,
                before == old(self)@.tree,
                old(self).wf(),
                old(self)@.current_directory == Some(current),
                self@ == old(self)@,
            decreases order.len() - checked,
        {
            if order[checked] >= children.len() {
                proof {
                    let index = order@[checked as int];
                    assert(order@.contains(index));
                    assert(indices@.contains(index));
                    let witness = choose|w: int| 0 <= w < indices@.len() && indices@[w] == index;
                    assert(indices@[witness] >= before.node(current).children.len());
                }
                return Err(DiskoError::NoSuchChild);
            }
            checked += 1;
        }
        proof {
            if Self::out_of_bounds(before, current, indices@) {
                let bad = choose|bad: int|
                    0 <= bad < indices@.len() && #[trigger] indices@[bad]
                        >= before.node(current).children.len();
                assert(indices@.contains(indices@[bad]));
                assert(order@.contains(indices@[bad]));
                let at = choose|at: int| 0 <= at < order@.len() && order@[at] == indices@[bad];
                assert(order@[at] < children@.len());
            }
        }
        let count = if deleted < order.len() {
            deleted
        } else {
            order.len()
        };
        let ghost targets = targets_of(before, current, order@);
        let mut deleted_size = EntrySize::default();
        let mut fault: Option<TreeError> = None;
        let mut k: usize = 0;
        proof {
            lemma_removal_starts(before, current);
        }
        while k < count && fault.is_none()
            invariant
                k <= count <= order@.len(),
                self@.current_directory == old(self)@.current_directory,
                self@.root == old(self)@.root,
                self@.traversal_threads == old(self)@.traversal_threads,
                before.wf(),
                self.tree.wf(),
                order@ == descending(indices@),
                children@ == before.node(current).children,
                children@.no_duplicates(),
                forall|j: int| 0 <= j < order@.len() ==> order@[j] < children@.len(),
                targets == targets_of(before, current, order@),
                removing(self@.tree, current, deleted_size),
                removed_run(before, targets, k as nat) == (Removal {
                    tree: self@.tree,
                    removed: deleted_size,
                    fault,
                }),
                self@.tree.root == before.root,
                self@.tree.attached(current),
                forall|r: NodeRef| #[trigger] self@.tree.contains(r) <==> before.contains(r),
                forall|j: int|
                    0 <= j < children@.len() ==> {
                        let child = #[trigger] children@[j];
                        &&& self@.tree.contains(child)
                        &&& self@.tree.root != Some(child)
                        &&& (self@.tree.node(child).parent == Some(current) || self@.tree.node(
                            child,
                        ).parent is None)
                    },
            decreases count - k + (if fault is None { 1nat } else { 0nat }),
        {
            let child = children[order[k]];
            let ghost reached = self@.tree;
            let ghost removed = deleted_size;
            proof {
                lemma_removed_run_step(before, targets, k as nat);
                assert(targets[k as int] == child);
                assert(reached.contains(children@[order@[k as int] as int]));
                if reached.node(child).parent is Some {
                    lemma_removal_goes_on(reached, current, removed, child);
                } else {
                    lemma_removed_twice(reached, child);
                }
            }
            let child_size = self.tree.node(child).data.sizes;
            match self.tree.remove_subtree(child) {
                Ok(()) => {
                    deleted_size.add_assign(child_size);
                    proof {
                        assert forall|j: int| 0 <= j < children@.len() implies {
                            let other = #[trigger] children@[j];
                            &&& self@.tree.contains(other)
                            &&& self@.tree.root != Some(other)
                            &&& (self@.tree.node(other).parent == Some(current)
                                || self@.tree.node(other).parent is None)
                        } by {
                            let other = children@[j];
                            assert(reached.contains(other));
                            if other != child {
                                assert(self@.tree.node(other).parent == reached.node(other).parent);
                            }
                        }
                    }
                },
                Err(e) => {
                    fault = Some(e);
                },
            }
            k += 1;
        }
        proof {
            if fault is Some {
                lemma_removed_run_stops(before, targets, k as nat, count as nat);
            }
            lemma_removal_ends(self@.tree, current, deleted_size);
            lemma_shifted_frame(
                self@.tree,
                self@.tree.ancestors(current),
                BackpropOperation::Subtract,
                deleted_size,
            );
            settled(
                Removal { tree: self@.tree, removed: deleted_size, fault },
                current,
            ).lemma_ancestors_same_links(self@.tree, current);
        }
        Self::backprop_size(&mut self.tree, current, deleted_size, BackpropOperation::Subtract);
        match fault {
            Some(fault) => Err(DiskoError::Inconsistent(fault)),
            None => if deleted < order.len() {
                Err(DiskoError::DeletionFailed)
            } else {
                Ok(())
            },
        }
    }
}

} // verus!

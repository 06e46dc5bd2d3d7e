//! What a walk carries along: where the next directory goes, and which
//! hard-linked files it has met.
use vstd::prelude::*;
use std::collections::HashMap;
use crate::node::NodeRef;

verus! {

broadcast use vstd::std_specs::hash::group_hash_axioms;

/// Where the next directory of a walk is attached.
#[derive(Clone, Copy, Debug, PartialEq, Eq, Structural)]
pub enum TreeWalkAncestor {
    /// The tree itself, which is about to receive its root.
    Tree,
    /// A directory node created earlier in the walk.
    Parent(NodeRef),
}

/// The context that a walk carries from directory to directory: the ancestor
/// below which the next directory goes, and the table of hard-linked files met
/// so far.
///
/// The table maps the inode of a file with several links to the number of its
/// links that the walk has not met yet.
#[derive(Debug)]
pub struct TreeWalkState {
    pub ancestor: TreeWalkAncestor,
    inodes_unvisited_links: HashMap<u64, u64>,
}

impl Default for TreeWalkState {
    /// A state for a walk that has not visited anything.
    fn default() -> (state: Self)
        ensures
            state.spec_ancestor() == TreeWalkAncestor::Tree,
            state.unvisited_links() == Map::<u64, u64>::empty(),
            state.wf(),
    {
        TreeWalkState::new()
    }
}

impl TreeWalkState {
    /// The ancestor below which the next directory goes.
    pub closed spec fn spec_ancestor(&self) -> TreeWalkAncestor {
        self.ancestor
    }

    /// The table of hard-linked files: inode to links not met yet.
    pub closed spec fn unvisited_links(&self) -> Map<u64, u64> {
        self.inodes_unvisited_links@
    }

    /// Every inode in the table has at least one link left to meet.
    pub open spec fn wf(&self) -> bool {
        Self::table_wf(self.unvisited_links())
    }

    /// Every inode in `table` has at least one link left to meet.
    pub open spec fn table_wf(table: Map<u64, u64>) -> bool {
        forall|inode: u64| #[trigger] table.contains_key(inode) ==> table[inode] >= 1
    }

    /// Whether a file with `links` links and the given inode has been met
    /// before, going by `table`.
    pub open spec fn seen_before(table: Map<u64, u64>, inode: u64, links: u64) -> bool {
        links > 1 && table.contains_key(inode)
    }

    /// The table after a file with `links` links and the given inode was met.
    ///
    /// The first meeting of an inode with several links records the links that
    /// are left; each later one takes one off, and the last takes the inode
    /// out of the table.
    pub open spec fn after_sighting(table: Map<u64, u64>, inode: u64, links: u64) -> Map<
        u64,
        u64,
    > {
        if links <= 1 {
            table
        } else if !table.contains_key(inode) {
            table.insert(inode, (links - 1) as u64)
        } else if table[inode] <= 1 {
            table.remove(inode)
        } else {
            table.insert(inode, (table[inode] - 1) as u64)
        }
    }

    /// The table after the same file was met `times` times in a row.
    pub open spec fn after_sightings(
        table: Map<u64, u64>,
        inode: u64,
        links: u64,
        times: nat,
    ) -> Map<u64, u64>
        decreases times,
    {
        if times == 0 {
            table
        } else {
            Self::after_sightings(
                Self::after_sighting(table, inode, links),
                inode,
                links,
                (times - 1) as nat,
            )
        }
    }

    /// A state for a walk that has not visited anything: the tree is the
    /// ancestor and the table is empty.
    pub fn new() -> (state: Self)
        ensures
            state.spec_ancestor() == TreeWalkAncestor::Tree,
            state.unvisited_links() == Map::<u64, u64>::empty(),
            state.wf(),
    {
        TreeWalkState { ancestor: TreeWalkAncestor::Tree, inodes_unvisited_links: HashMap::new() }
    }

    /// The ancestor below which the next directory goes.
    pub fn get_ancestor(&self) -> (ancestor: TreeWalkAncestor)
        ensures
            ancestor == self.spec_ancestor(),
    {
        self.ancestor
    }

    /// Makes `ancestor` the place where the next directory goes. The table
    /// stays as it is.
    pub fn set_ancestor(&mut self, ancestor: TreeWalkAncestor)
        ensures
            final(self).spec_ancestor() == ancestor,
            final(self).unvisited_links() == old(self).unvisited_links(),
    {
        self.ancestor = ancestor;
    }

    /// Records that a file with the given inode and link count was met, and
    /// tells whether the walk has counted its size already.
    ///
    /// A file with a single link is never a duplicate and leaves the table
    /// alone.
    pub fn file_has_been_seen(&mut self, inode: u64, links: u64) -> (seen: bool)
        requires
            old(self).wf(),
        ensures
            final(self).wf(),
            final(self).spec_ancestor() == old(self).spec_ancestor(),
            seen == Self::seen_before(old(self).unvisited_links(), inode, links),
            final(self).unvisited_links() == Self::after_sighting(
                old(self).unvisited_links(),
                inode,
                links,
            ),
    {
        if links <= 1 {
            return false;
        }
        let left = match self.inodes_unvisited_links.get(&inode) {
            Some(count) => Some(*count),
            None => None,
        };
        match left {
            Some(count) => {
                if count <= 1 {
                    // The last link of this inode.
                    self.inodes_unvisited_links.remove(&inode);
                } else {
                    self.inodes_unvisited_links.insert(inode, count - 1);
                }
                true
            },
            None => {
                // The first link of this inode.
                self.inodes_unvisited_links.insert(inode, links - 1);
                false
            },
        }
    }

    /// Meeting one file changes nothing that the table holds for another.
    pub proof fn lemma_sighting_leaves_others(
        table: Map<u64, u64>,
        inode: u64,
        links: u64,
        other: u64,
    )
        requires
            other != inode,
        ensures
            Self::after_sighting(table, inode, links).contains_key(other) == table.contains_key(
                other,
            ),
            table.contains_key(other) ==> Self::after_sighting(table, inode, links)[other]
                == table[other],
            Self::seen_before(Self::after_sighting(table, inode, links), other, links)
                == Self::seen_before(table, other, links),
    {
    }

    /// A file with several links is counted exactly once: of all its links,
    /// met in any order among other files, the first is new and every later
    /// one has been seen. Here: once the first link was met, the next
    /// `links - 1` meetings all count as seen, and after them the table no
    /// longer holds the inode.
    pub proof fn lemma_links_counted_once(table: Map<u64, u64>, inode: u64, links: u64)
        requires
            links > 1,
            !table.contains_key(inode),
        ensures
            !Self::seen_before(table, inode, links),
            forall|met: nat|
                1 <= met < links ==> Self::seen_before(
                    #[trigger] Self::after_sightings(table, inode, links, met),
                    inode,
                    links,
                ),
            Self::after_sightings(table, inode, links, links as nat) == table,
    {
        let first = Self::after_sighting(table, inode, links);
        assert forall|met: nat| 1 <= met < links implies Self::seen_before(
            #[trigger] Self::after_sightings(table, inode, links, met),
            inode,
            links,
        ) by {
            Self::lemma_later_sightings(table, inode, links, met);
        }
        Self::lemma_later_sightings(table, inode, links, (links - 1) as nat);
        Self::lemma_sightings_step(table, inode, links, (links - 1) as nat);
        let before_last = Self::after_sightings(table, inode, links, (links - 1) as nat);
        assert(before_last[inode] == 1);
        assert(Self::after_sighting(before_last, inode, links) =~= table);
    }

    /// After the first of `links` links and `met - 1` more, the table holds
    /// the inode with `links - met` links left and is otherwise as at the
    /// start.
    proof fn lemma_later_sightings(table: Map<u64, u64>, inode: u64, links: u64, met: nat)
        requires
            links > 1,
            !table.contains_key(inode),
            1 <= met < links,
        ensures
            Self::after_sightings(table, inode, links, met) == table.insert(
                inode,
                (links - met) as u64,
            ),
        decreases met,
    {
        if met == 1 {
            assert(Self::after_sightings(table, inode, links, 1) == Self::after_sightings(
                Self::after_sighting(table, inode, links),
                inode,
                links,
                0,
            ));
        } else {
            Self::lemma_later_sightings(table, inode, links, (met - 1) as nat);
            Self::lemma_sightings_step(table, inode, links, (met - 1) as nat);
            let before = table.insert(inode, (links - (met - 1)) as u64);
            assert(Self::after_sighting(before, inode, links) =~= table.insert(
                inode,
                (links - met) as u64,
            ));
        }
    }

    /// Meeting a file `times + 1` times is meeting it `times` times and then
    /// once more.
    proof fn lemma_sightings_step(table: Map<u64, u64>, inode: u64, links: u64, times: nat)
        ensures
            Self::after_sightings(table, inode, links, times + 1) == Self::after_sighting(
                Self::after_sightings(table, inode, links, times),
                inode,
                links,
            ),
        decreases times,
    {
        if times == 0 {
            assert(Self::after_sightings(table, inode, links, 1) == Self::after_sightings(
                Self::after_sighting(table, inode, links),
                inode,
                links,
                0,
            ));
        } else {
            Self::lemma_sightings_step(
                Self::after_sighting(table, inode, links),
                inode,
                links,
                (times - 1) as nat,
            );
        }
    }
}

} // verus!

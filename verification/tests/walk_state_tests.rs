use disko::confirm_delete::ConfirmDeletePopup;
use disko::indicator::{ascii, braille_double, white_circle, Indicator};
use disko::node::NodeRef;
use disko::sorting::{sort_descending, sort_for_listing};
use disko::disko_tree::DiskoError;
use disko::tree::{Tree, TreeError};
use disko::tree_walk_state::{TreeWalkAncestor, TreeWalkState};

#[test]
fn a_file_with_one_link_is_never_seen_before() {
    let mut state = TreeWalkState::new();
    assert!(!state.file_has_been_seen(7, 1));
    assert!(!state.file_has_been_seen(7, 1));
    assert!(!state.file_has_been_seen(7, 0));
}

#[test]
fn every_link_after_the_first_has_been_seen() {
    let mut state = TreeWalkState::new();
    assert!(!state.file_has_been_seen(7, 3));
    // Another file in between changes nothing.
    assert!(!state.file_has_been_seen(8, 2));
    assert!(state.file_has_been_seen(7, 3));
    assert!(state.file_has_been_seen(7, 3));
    // All three links were met: the file is forgotten, and new again.
    assert!(!state.file_has_been_seen(7, 3));
    assert!(state.file_has_been_seen(8, 2));
    assert!(!state.file_has_been_seen(8, 2));
}

#[test]
fn the_ancestor_is_kept_and_set() {
    let mut state = TreeWalkState::new();
    assert_eq!(state.get_ancestor(), TreeWalkAncestor::Tree);
    state.set_ancestor(TreeWalkAncestor::Parent(NodeRef { index: 3 }));
    assert!(!state.file_has_been_seen(1, 2));
    assert_eq!(
        state.get_ancestor(),
        TreeWalkAncestor::Parent(NodeRef { index: 3 })
    );
    assert_eq!(state.ancestor, TreeWalkAncestor::Parent(NodeRef { index: 3 }));
    state.set_ancestor(TreeWalkAncestor::Tree);
    assert!(state.file_has_been_seen(1, 2));
}

#[test]
fn listing_order_sorts_by_key_then_position() {
    let sorted = sort_for_listing(vec![(5, 0), (9, 1), (5, 2), (1, 3), (9, 4), (7, 5)]);
    assert_eq!(sorted, vec![(9, 1), (9, 4), (7, 5), (5, 0), (5, 2), (1, 3)]);
    assert_eq!(sort_for_listing(vec![]), vec![]);
    assert_eq!(sort_for_listing(vec![(3, 0)]), vec![(3, 0)]);
    assert_eq!(sort_for_listing(vec![(1, 0), (2, 1)]), vec![(2, 1), (1, 0)]);
}

#[test]
fn indices_are_sorted_from_the_largest_down() {
    assert_eq!(sort_descending(&vec![1, 4, 2]), vec![4, 2, 1]);
    assert_eq!(sort_descending(&vec![3, 3, 0, 9]), vec![9, 3, 3, 0]);
    assert_eq!(sort_descending(&vec![]), Vec::<usize>::new());
}

#[test]
fn the_popup_switches_between_its_answers() {
    let mut popup = ConfirmDeletePopup::new(true);
    assert!(popup.confirmed());
    popup.switch_confirmation();
    assert!(!popup.confirmed());
    popup.switch_confirmation();
    assert!(popup.confirmed());
    assert!(!ConfirmDeletePopup::new(false).confirmed());
}

#[test]
fn the_indicator_cycles() {
    let mut indicator = Indicator::new(&ascii(), "Traversing".to_string());
    assert_eq!(indicator.render(), "| Traversing");
    indicator.next_step();
    assert_eq!(indicator.render(), "/ Traversing");
    indicator.next_step();
    assert_eq!(indicator.render(), "- Traversing");
    indicator.next_step();
    assert_eq!(indicator.render(), "\\ Traversing");
    indicator.next_step();
    assert_eq!(indicator.render(), "| Traversing");
    assert_eq!(white_circle().len(), 4);
    assert_eq!(braille_double().len(), 6);
    let mut other = Indicator::new(&braille_double(), String::new());
    other.next_step();
    assert_eq!(other.render(), "\u{2830} ");
}

#[test]
fn a_node_that_left_cannot_be_removed_again() {
    let mut tree = Tree::new();
    let root = tree.create_node_and_set_root(0).unwrap();
    let child = tree.attach_child(root, 1);
    assert_eq!(tree.remove_subtree(child), Ok(()));
    assert_eq!(
        tree.remove_subtree(child),
        Err(TreeError::NotRootNoParent)
    );
    assert_eq!(tree.node(root).get_children().len(), 0);
}

#[test]
fn the_root_leaves_by_emptying_the_root_slot() {
    let mut tree = Tree::new();
    let root = tree.create_node_and_set_root(0).unwrap();
    let child = tree.attach_child(root, 1);
    assert_eq!(tree.remove_subtree(root), Ok(()));
    assert_eq!(tree.get_root(), None);
    // The old root keeps its child, and the child its parent.
    assert_eq!(tree.node(root).get_children(), vec![child]);
    assert_eq!(tree.node(child).get_parent(), Some(root));
    assert_eq!(tree.ancestors(child), vec![child, root]);
    // The tree can get a root again.
    let second = tree.create_node_and_set_root(5).unwrap();
    assert_eq!(tree.get_root(), Some(second));
    assert_eq!(tree.len(), 3);
}

#[test]
fn a_middle_child_leaves_and_the_others_keep_their_order() {
    let mut tree = Tree::new();
    let root = tree.create_node_and_set_root(0).unwrap();
    let a = tree.attach_child(root, 1);
    let b = tree.attach_child(root, 2);
    let c = tree.attach_child(root, 3);
    assert_eq!(tree.remove_subtree(b), Ok(()));
    assert_eq!(tree.node(root).get_children(), vec![a, c]);
    assert_eq!(tree.node(root).get_child_at(1), Some(c));
    assert_eq!(tree.node(root).get_child_at(2), None);
}

#[test]
fn a_released_parent_ends_the_walk_up() {
    let mut tree = Tree::new();
    let root = tree.create_node_and_set_root(0).unwrap();
    let child = tree.attach_child(root, 1);
    let grandchild = tree.attach_child(child, 2);
    // Nothing that the tree keeps can be released.
    assert_eq!(tree.release(root), None);
    assert_eq!(tree.release(child), None);
    assert_eq!(tree.ancestors(grandchild), vec![grandchild, child, root]);
    assert_eq!(tree.remove_subtree(child), Ok(()));
    assert_eq!(tree.ancestors(grandchild), vec![grandchild, child]);
    assert_eq!(tree.release(child), Some(1));
    assert!(!tree.contains(child));
    assert!(tree.upgrade(child).is_none());
    assert!(tree.contains(grandchild));
    // The grandchild still names its parent, which no longer resolves.
    assert_eq!(tree.node(grandchild).get_parent(), Some(child));
    assert_eq!(tree.ancestors(grandchild), vec![grandchild]);
    let mut iter = tree.iter_to_root_from_node(grandchild);
    assert_eq!(iter.next(&tree), Some(grandchild));
    assert_eq!(iter.next(&tree), None);
    assert_eq!(
        tree.remove_subtree(grandchild),
        Err(TreeError::ParentGone)
    );
    // A walk from a node that is gone yields nothing.
    assert_eq!(tree.ancestors(child), Vec::<NodeRef>::new());
    assert_eq!(tree.release(child), None);
    assert_eq!(tree.release(NodeRef { index: 99 }), None);
    // Nothing keeps the grandchild now.
    assert_eq!(tree.release(grandchild), Some(2));
}

#[test]
fn walking_up_twice_yields_the_same() {
    let mut tree = Tree::new();
    let root = tree.create_node_and_set_root(0).unwrap();
    let child = tree.attach_child(root, 1);
    let grandchild = tree.attach_child(child, 2);
    let first = tree.ancestors(grandchild);
    let second = tree.ancestors(grandchild);
    assert_eq!(first, second);
    assert_eq!(first, vec![grandchild, child, root]);
}

#[test]
fn errors_say_what_went_wrong() {
    assert_eq!(TreeError::AlreadyHasRoot.message(), "There is a root already!");
    assert_eq!(
        TreeError::RootHasParent.message(),
        "Node to be removed is a root of tree, but has a parent."
    );
    assert_eq!(
        TreeError::NotRootNoParent.message(),
        "Node to be removed is not a root of tree, but has no parent."
    );
    assert_eq!(
        TreeError::ParentGone.message(),
        "Node to be removed has a parent that is gone."
    );
    assert_eq!(
        DiskoError::NoCurrentDirectory.message(),
        "Current directory not set"
    );
    assert_eq!(
        DiskoError::NoParent.message(),
        "Failed to get parent of current directory"
    );
    assert_eq!(
        DiskoError::NoSuchChild.message(),
        "Provided index is out of bounds."
    );
    assert_eq!(
        DiskoError::DeletionFailed.message(),
        "Failed to delete an entry on disk."
    );
    assert_eq!(
        DiskoError::Inconsistent(TreeError::NotRootNoParent).message(),
        TreeError::NotRootNoParent.message()
    );
}

#[test]
fn defaults_are_empty() {
    let tree: Tree<u8> = Tree::default();
    assert_eq!(tree.get_root(), None);
    assert_eq!(tree.len(), 0);
    let state = TreeWalkState::default();
    assert_eq!(state.get_ancestor(), TreeWalkAncestor::Tree);
}

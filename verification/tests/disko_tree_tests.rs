use std::path::PathBuf;

use disko::disko_tree::{DirOutcome, DiskoError, DiskoTree};
use disko::entry_node::{DirEntryKind, DirEntryRecord, EntryMetadata, RawMode};
use disko::entry_size::EntrySize;
use disko::entry_type::{EntryType, FileType};
use disko::node::NodeRef;
use disko::tree::TreeError;
use disko::tree_walk_state::{TreeWalkAncestor, TreeWalkState};

fn metadata(is_dir: bool, len: u64, size_on_disk: u64, inode: u64, links: u64) -> EntryMetadata {
    EntryMetadata {
        is_dir,
        len,
        size_on_disk,
        inode,
        links,
        mode: RawMode::Unknown,
        accessed: None,
    }
}

fn file(name: &str, path: &str, len: u64, inode: u64, links: u64) -> Option<DirEntryRecord> {
    Some(DirEntryRecord {
        name: name.to_string(),
        path: PathBuf::from(path),
        kind: DirEntryKind::File,
        metadata: Some(metadata(false, len, len, inode, links)),
    })
}

fn subdir(name: &str, path: &str) -> Option<DirEntryRecord> {
    Some(DirEntryRecord {
        name: name.to_string(),
        path: PathBuf::from(path),
        kind: DirEntryKind::Directory,
        metadata: Some(metadata(true, 0, 0, 0, 1)),
    })
}

fn visit(
    tree: &mut DiskoTree,
    state: &mut TreeWalkState,
    name: &str,
    path: &str,
    children: Vec<Option<DirEntryRecord>>,
) -> NodeRef {
    let outcome = tree.process_dir(
        Some(0),
        name.to_string(),
        PathBuf::from(path),
        Some(metadata(true, 0, 0, 0, 1)),
        state,
        &children,
    );
    match outcome {
        DirOutcome::Visited(node) => node,
        other => panic!("not visited: {:?}", other),
    }
}

fn size_of(tree: &DiskoTree, node: NodeRef) -> u64 {
    tree.tree().node(node).data.sizes.apparent_size
}

/// Root `/a` with the directory `/a/b` (one file of 100 bytes) and the file
/// `/a/c` (50 bytes).
fn walked() -> (DiskoTree, NodeRef, NodeRef) {
    let mut tree = DiskoTree::new(PathBuf::from("/a"), 1);
    let mut state = TreeWalkState::new();
    let a = visit(
        &mut tree,
        &mut state,
        "a",
        "/a",
        vec![subdir("b", "/a/b"), file("c", "/a/c", 50, 11, 1)],
    );
    let b = visit(
        &mut tree,
        &mut state,
        "b",
        "/a/b",
        vec![file("f", "/a/b/f", 100, 12, 1)],
    );
    (tree, a, b)
}

#[test]
fn walk_adds_up_sizes() {
    let (tree, a, b) = walked();
    assert_eq!(size_of(&tree, a), 150);
    assert_eq!(size_of(&tree, b), 100);
    assert_eq!(tree.tree().get_root(), Some(a));
    assert_eq!(tree.tree().node(b).get_parent(), Some(a));
    // /a holds the file c and the directory b, in the order in which they came.
    let children = tree.tree().node(a).get_children();
    assert_eq!(children.len(), 2);
    assert_eq!(tree.tree().node(children[0]).data.name, "c");
    assert_eq!(children[1], b);
    assert_eq!(
        tree.tree().node(children[0]).data.entry_type,
        EntryType::File(FileType::Text)
    );
    assert_eq!(tree.tree().node(b).data.entry_type, EntryType::Directory);
}

#[test]
fn deleting_a_directory_takes_its_size_off_the_root() {
    let (mut tree, a, b) = walked();
    let (_, listing) = tree.get_current_dir_view(false).unwrap();
    // The largest first: b (100), then c (50).
    assert_eq!(listing[0].name, "b");
    let index = listing[0].index_to_original_node.unwrap();
    let targets = tree.deletion_targets(&vec![index]).unwrap();
    assert_eq!(targets.len(), 1);
    assert_eq!(targets[0].path, PathBuf::from("/a/b"));
    assert_eq!(targets[0].entry_type, EntryType::Directory);
    assert_eq!(tree.delete_entries(&vec![index], 1), Ok(()));
    assert_eq!(size_of(&tree, a), 50);
    assert_eq!(tree.tree().node(a).get_children().len(), 1);
    // The directory that left keeps what is below it.
    assert!(tree.tree().node(b).get_parent().is_none());
    assert_eq!(tree.tree().node(b).get_children().len(), 1);
    assert_eq!(size_of(&tree, b), 100);
    assert_eq!(tree.tree().ancestors(b), vec![b]);
}

#[test]
fn a_walk_that_stops_early_leaves_right_sizes() {
    let mut tree = DiskoTree::new(PathBuf::from("/a"), 1);
    let mut state = TreeWalkState::new();
    let a = visit(
        &mut tree,
        &mut state,
        "a",
        "/a",
        vec![
            subdir("b", "/a/b"),
            subdir("d", "/a/d"),
            file("c", "/a/c", 50, 11, 1),
        ],
    );
    // Stopped before any directory below the root was visited.
    assert_eq!(tree.tree().get_root(), Some(a));
    assert_eq!(size_of(&tree, a), 50);
    let mut branch = TreeWalkState::new();
    branch.set_ancestor(state.get_ancestor());
    let b = visit(
        &mut tree,
        &mut branch,
        "b",
        "/a/b",
        vec![file("f", "/a/b/f", 100, 12, 1)],
    );
    // Stopped before /a/d was visited.
    assert_eq!(size_of(&tree, a), 150);
    assert_eq!(size_of(&tree, b), 100);
    assert_eq!(tree.tree().node(a).get_children().len(), 2);
}

#[test]
fn a_file_with_two_links_is_counted_once() {
    let mut tree = DiskoTree::new(PathBuf::from("/a"), 1);
    let mut state = TreeWalkState::new();
    let a = visit(
        &mut tree,
        &mut state,
        "a",
        "/a",
        vec![subdir("b", "/a/b"), file("x", "/a/x", 70, 5, 2)],
    );
    let b = visit(
        &mut tree,
        &mut state,
        "b",
        "/a/b",
        vec![file("y", "/a/b/y", 70, 5, 2), file("z", "/a/b/z", 7, 6, 1)],
    );
    assert_eq!(size_of(&tree, a), 77);
    assert_eq!(size_of(&tree, b), 7);
    // The second link is in the tree, with no size.
    let below_b = tree.tree().node(b).get_children();
    assert_eq!(below_b.len(), 2);
    assert_eq!(tree.tree().node(below_b[0]).data.name, "y");
    assert_eq!(
        tree.tree().node(below_b[0]).data.sizes,
        EntrySize::new(0, 0)
    );
    assert_eq!(
        tree.tree().node(below_b[1]).data.sizes,
        EntrySize::new(7, 7)
    );
}

#[test]
fn two_links_in_one_directory_are_counted_once() {
    let mut tree = DiskoTree::new(PathBuf::from("/a"), 1);
    let mut state = TreeWalkState::new();
    let a = visit(
        &mut tree,
        &mut state,
        "a",
        "/a",
        vec![file("x", "/a/x", 70, 5, 2), file("y", "/a/y", 70, 5, 2)],
    );
    assert_eq!(size_of(&tree, a), 70);
    assert_eq!(tree.tree().node(a).get_children().len(), 2);
}

#[test]
fn the_directory_counts_its_own_size() {
    let mut tree = DiskoTree::new(PathBuf::from("/a"), 1);
    let mut state = TreeWalkState::new();
    let outcome = tree.process_dir(
        Some(0),
        "a".to_string(),
        PathBuf::from("/a"),
        Some(metadata(true, 4096, 8192, 1, 2)),
        &mut state,
        &vec![file("c", "/a/c", 50, 11, 1)],
    );
    let DirOutcome::Visited(a) = outcome else {
        panic!("not visited");
    };
    assert_eq!(
        tree.tree().node(a).data.sizes,
        EntrySize::new(4096 + 50, 8192 + 50)
    );
    assert_eq!(state.get_ancestor(), TreeWalkAncestor::Parent(a));
}

#[test]
fn entries_that_are_no_readable_files_are_passed_over() {
    let mut tree = DiskoTree::new(PathBuf::from("/a"), 1);
    let mut state = TreeWalkState::new();
    let unreadable = Some(DirEntryRecord {
        name: "u".to_string(),
        path: PathBuf::from("/a/u"),
        kind: DirEntryKind::File,
        metadata: None,
    });
    let link = Some(DirEntryRecord {
        name: "l".to_string(),
        path: PathBuf::from("/a/l"),
        kind: DirEntryKind::Other,
        metadata: Some(metadata(false, 9, 9, 3, 1)),
    });
    let a = visit(
        &mut tree,
        &mut state,
        "a",
        "/a",
        vec![
            None,
            unreadable,
            link,
            subdir("b", "/a/b"),
            file("c", "/a/c", 50, 11, 1),
        ],
    );
    assert_eq!(size_of(&tree, a), 50);
    assert_eq!(tree.tree().node(a).get_children().len(), 1);
}

#[test]
fn the_entry_above_the_root_is_skipped() {
    let mut tree = DiskoTree::new(PathBuf::from("/a"), 1);
    let mut state = TreeWalkState::new();
    let outcome = tree.process_dir(
        None,
        "".to_string(),
        PathBuf::from("/"),
        Some(metadata(true, 0, 0, 0, 1)),
        &mut state,
        &vec![subdir("a", "/a")],
    );
    assert_eq!(outcome, DirOutcome::Skipped);
    assert!(tree.tree().get_root().is_none());
    assert_eq!(state.get_ancestor(), TreeWalkAncestor::Tree);
}

#[test]
fn a_directory_without_metadata_is_skipped() {
    let mut tree = DiskoTree::new(PathBuf::from("/a"), 1);
    let mut state = TreeWalkState::new();
    let outcome = tree.process_dir(
        Some(0),
        "a".to_string(),
        PathBuf::from("/a"),
        None,
        &mut state,
        &vec![file("c", "/a/c", 50, 11, 1)],
    );
    assert_eq!(outcome, DirOutcome::Skipped);
    let outcome = tree.process_dir(
        Some(0),
        "a".to_string(),
        PathBuf::from("/a"),
        Some(metadata(false, 10, 10, 0, 1)),
        &mut state,
        &vec![],
    );
    assert_eq!(outcome, DirOutcome::Skipped);
    assert!(tree.tree().get_root().is_none());
    assert_eq!(tree.tree().len(), 0);
}

#[test]
fn a_second_root_is_refused() {
    let (mut tree, a, _) = walked();
    let mut state = TreeWalkState::new();
    let outcome = tree.process_dir(
        Some(0),
        "other".to_string(),
        PathBuf::from("/other"),
        Some(metadata(true, 0, 0, 0, 1)),
        &mut state,
        &vec![],
    );
    assert_eq!(outcome, DirOutcome::RootAlreadySet);
    assert_eq!(tree.tree().get_root(), Some(a));
    assert_eq!(size_of(&tree, a), 150);
    assert_eq!(state.get_ancestor(), TreeWalkAncestor::Tree);
}

#[test]
fn sizes_that_leave_u64_are_refused() {
    let mut tree = DiskoTree::new(PathBuf::from("/a"), 1);
    let mut state = TreeWalkState::new();
    let a = visit(
        &mut tree,
        &mut state,
        "a",
        "/a",
        vec![file("big", "/a/big", u64::MAX - 10, 11, 1)],
    );
    let slots = tree.tree().len();
    let outcome = tree.process_dir(
        Some(1),
        "b".to_string(),
        PathBuf::from("/a/b"),
        Some(metadata(true, 0, 0, 0, 1)),
        &mut state,
        &vec![file("f", "/a/b/f", 11, 12, 1)],
    );
    assert_eq!(outcome, DirOutcome::TooLarge);
    assert_eq!(tree.tree().len(), slots);
    assert_eq!(size_of(&tree, a), u64::MAX - 10);
    assert_eq!(state.get_ancestor(), TreeWalkAncestor::Parent(a));
    // Exactly up to the limit is fine.
    let outcome = tree.process_dir(
        Some(1),
        "b".to_string(),
        PathBuf::from("/a/b"),
        Some(metadata(true, 0, 0, 0, 1)),
        &mut state,
        &vec![file("f", "/a/b/f", 10, 12, 1)],
    );
    assert!(matches!(outcome, DirOutcome::Visited(_)));
    assert_eq!(size_of(&tree, a), u64::MAX);
    // Two files of one directory that together leave u64.
    let mut tree = DiskoTree::new(PathBuf::from("/a"), 1);
    let mut state = TreeWalkState::new();
    let outcome = tree.process_dir(
        Some(0),
        "a".to_string(),
        PathBuf::from("/a"),
        Some(metadata(true, 0, 0, 0, 1)),
        &mut state,
        &vec![
            file("x", "/a/x", u64::MAX, 1, 1),
            file("y", "/a/y", 1, 2, 1),
        ],
    );
    assert_eq!(outcome, DirOutcome::TooLarge);
    assert!(tree.tree().get_root().is_none());
}

#[test]
fn incoming_size_adds_files_only() {
    let children = vec![
        subdir("b", "/a/b"),
        file("c", "/a/c", 50, 11, 1),
        None,
        file("d", "/a/d", 5, 12, 3),
    ];
    assert_eq!(
        DiskoTree::incoming_size(EntrySize::new(1, 2), &children),
        Some(EntrySize::new(56, 57))
    );
    let children = vec![file("c", "/a/c", u64::MAX, 11, 1)];
    assert_eq!(
        DiskoTree::incoming_size(EntrySize::new(1, 0), &children),
        None
    );
}

#[test]
fn listing_is_ordered_by_size_then_by_position() {
    let mut tree = DiskoTree::new(PathBuf::from("/a"), 1);
    let mut state = TreeWalkState::new();
    let mut small = file("small", "/a/small", 5, 1, 1).unwrap();
    small.metadata = Some(metadata(false, 5, 900, 1, 1));
    let a = visit(
        &mut tree,
        &mut state,
        "a",
        "/a",
        vec![
            Some(small),
            file("mid1", "/a/mid1", 20, 2, 1),
            file("big", "/a/big", 300, 3, 1),
            file("mid2", "/a/mid2", 20, 4, 1),
        ],
    );
    let by_apparent = tree.get_children(a, false);
    let names: Vec<&str> = by_apparent.iter().map(|v| v.name.as_str()).collect();
    assert_eq!(names, vec!["big", "mid1", "mid2", "small"]);
    let positions: Vec<Option<usize>> = by_apparent
        .iter()
        .map(|v| v.index_to_original_node)
        .collect();
    assert_eq!(positions, vec![Some(2), Some(1), Some(3), Some(0)]);
    let by_disk = tree.get_children(a, true);
    let names: Vec<&str> = by_disk.iter().map(|v| v.name.as_str()).collect();
    assert_eq!(names, vec!["small", "big", "mid1", "mid2"]);
    assert_eq!(by_disk[0].sizes, EntrySize::new(5, 900));
    assert_eq!(by_disk[0].path, PathBuf::from("/a/small"));
}

#[test]
fn the_cursor_moves_down_and_up() {
    let (mut tree, a, b) = walked();
    assert_eq!(tree.current_directory(), None);
    assert_eq!(
        tree.switch_to_parent_directory(),
        Err(DiskoError::NoCurrentDirectory)
    );
    assert_eq!(
        tree.switch_to_subdirectory(0),
        Err(DiskoError::NoCurrentDirectory)
    );
    let (current, listing) = tree.get_current_dir_view(false).unwrap();
    assert_eq!(current.name, "a");
    assert_eq!(current.sizes, EntrySize::new(150, 150));
    assert_eq!(current.index_to_original_node, None);
    assert_eq!(listing.len(), 2);
    assert_eq!(tree.current_directory(), Some(a));
    // The root has no parent.
    assert_eq!(
        tree.switch_to_parent_directory(),
        Err(DiskoError::NoParent)
    );
    assert_eq!(tree.current_directory(), Some(a));
    // b is the second child of a.
    let preview = tree.get_subdir_of_current_dir_view(1, false).unwrap();
    assert_eq!(preview.len(), 1);
    assert_eq!(preview[0].name, "f");
    assert_eq!(tree.current_directory(), Some(a));
    assert!(tree.get_subdir_of_current_dir_view(2, false).is_none());
    assert_eq!(tree.switch_to_subdirectory(1), Ok(()));
    assert_eq!(tree.current_directory(), Some(b));
    assert_eq!(tree.switch_to_parent_directory(), Ok(()));
    assert_eq!(tree.current_directory(), Some(a));
    // A child that is not there unsets the current directory.
    assert_eq!(
        tree.switch_to_subdirectory(2),
        Err(DiskoError::NoSuchChild)
    );
    assert_eq!(tree.current_directory(), None);
    // The next view starts at the root again.
    assert!(tree.get_current_dir_view(true).is_some());
    assert_eq!(tree.current_directory(), Some(a));
}

#[test]
fn an_empty_tree_has_no_view() {
    let mut tree = DiskoTree::new(PathBuf::from("/a"), 4);
    assert!(tree.get_current_dir_view(false).is_none());
    assert!(tree.get_subdir_of_current_dir_view(0, false).is_none());
    assert_eq!(tree.root_path(), PathBuf::from("/a"));
    assert_eq!(tree.traversal_threads(), 4);
    assert_eq!(
        tree.deletion_targets(&vec![0]).err(),
        Some(DiskoError::NoCurrentDirectory)
    );
    assert_eq!(
        tree.delete_entries(&vec![0], 1),
        Err(DiskoError::NoCurrentDirectory)
    );
}

fn five_files() -> (DiskoTree, NodeRef) {
    let mut tree = DiskoTree::new(PathBuf::from("/a"), 1);
    let mut state = TreeWalkState::new();
    let a = visit(
        &mut tree,
        &mut state,
        "a",
        "/a",
        vec![
            file("f0", "/a/f0", 1, 10, 1),
            file("f1", "/a/f1", 2, 11, 1),
            file("f2", "/a/f2", 4, 12, 1),
            file("f3", "/a/f3", 8, 13, 1),
            file("f4", "/a/f4", 16, 14, 1),
        ],
    );
    tree.get_current_dir_view(false);
    (tree, a)
}

fn names_below(tree: &DiskoTree, node: NodeRef) -> Vec<String> {
    tree.tree()
        .node(node)
        .get_children()
        .iter()
        .map(|c| tree.tree().node(*c).data.name.clone())
        .collect()
}

#[test]
fn several_entries_are_deleted_from_the_largest_index_down() {
    let (mut tree, a) = five_files();
    let targets = tree.deletion_targets(&vec![1, 4, 2]).unwrap();
    let order: Vec<usize> = targets.iter().map(|t| t.index).collect();
    assert_eq!(order, vec![4, 2, 1]);
    assert_eq!(targets[0].path, PathBuf::from("/a/f4"));
    assert_eq!(targets[2].path, PathBuf::from("/a/f1"));
    assert_eq!(targets[1].entry_type, EntryType::File(FileType::Text));
    assert_eq!(tree.delete_entries(&vec![1, 4, 2], 3), Ok(()));
    assert_eq!(names_below(&tree, a), vec!["f0", "f3"]);
    assert_eq!(size_of(&tree, a), 9);
}

#[test]
fn what_was_not_deleted_on_disk_stays_in_the_tree() {
    let (mut tree, a) = five_files();
    // Only the first of the three, f4, was deleted on disk.
    assert_eq!(
        tree.delete_entries(&vec![1, 4, 2], 1),
        Err(DiskoError::DeletionFailed)
    );
    assert_eq!(names_below(&tree, a), vec!["f0", "f1", "f2", "f3"]);
    assert_eq!(size_of(&tree, a), 15);
    // None was deleted.
    assert_eq!(
        tree.delete_entries(&vec![0], 0),
        Err(DiskoError::DeletionFailed)
    );
    assert_eq!(size_of(&tree, a), 15);
}

#[test]
fn an_index_out_of_bounds_changes_nothing() {
    let (mut tree, a) = five_files();
    assert_eq!(
        tree.deletion_targets(&vec![0, 5]).err(),
        Some(DiskoError::NoSuchChild)
    );
    assert_eq!(
        tree.delete_entries(&vec![0, 5], 2),
        Err(DiskoError::NoSuchChild)
    );
    assert_eq!(names_below(&tree, a).len(), 5);
    assert_eq!(size_of(&tree, a), 31);
}

#[test]
fn an_entry_cannot_leave_twice() {
    let (mut tree, a) = five_files();
    assert_eq!(
        tree.delete_entries(&vec![3, 3], 2),
        Err(DiskoError::Inconsistent(TreeError::NotRootNoParent))
    );
    // It left once, and its size was taken off once.
    assert_eq!(names_below(&tree, a), vec!["f0", "f1", "f2", "f4"]);
    assert_eq!(size_of(&tree, a), 23);
}

#[test]
fn deleting_below_a_subdirectory_reaches_the_root() {
    let (mut tree, a, b) = walked();
    tree.get_current_dir_view(false);
    assert_eq!(tree.switch_to_subdirectory(1), Ok(()));
    assert_eq!(tree.delete_entries(&vec![0], 1), Ok(()));
    assert_eq!(size_of(&tree, b), 0);
    assert_eq!(size_of(&tree, a), 50);
    assert!(tree.tree().node(b).get_children().is_empty());
}

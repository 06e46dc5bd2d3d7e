use std::path::PathBuf;

use disko::aggregation::BackpropOperation;
use disko::disko_tree::DiskoTree;
use disko::entry_node::{
    attribute_string, extract_mode, get_access_string_triple, permission_string, DirEntryKind,
    DirEntryRecord, EntryMetadata, EntryNode, EntryNodeView, Mode, RawMode, Timestamp,
};
use disko::entry_size::EntrySize;
use disko::entry_type::{EntryType, FileType};
use disko::tree::Tree;

fn some_metadata(mode: RawMode) -> EntryMetadata {
    EntryMetadata {
        is_dir: false,
        len: 12,
        size_on_disk: 4096,
        inode: 77,
        links: 1,
        mode,
        accessed: Some(Timestamp {
            seconds: 1_700_000_000,
            nanoseconds: 5,
        }),
    }
}

#[test]
fn access_triples() {
    assert_eq!(get_access_string_triple(0o7), "rwx");
    assert_eq!(get_access_string_triple(0o5), "r-x");
    assert_eq!(get_access_string_triple(0o2), "-w-");
    assert_eq!(get_access_string_triple(0o0), "---");
    // Only the lowest three bits count.
    assert_eq!(get_access_string_triple(0o644 >> 6), "rw-");
    assert_eq!(get_access_string_triple(0o100644), "r--");
}

#[test]
fn permission_strings() {
    assert_eq!(permission_string(0o100644), "-rw-r--r--");
    assert_eq!(permission_string(0o040755), "drwxr-xr-x");
    assert_eq!(permission_string(0o120777), "lrwxrwxrwx");
    assert_eq!(permission_string(0o140000), "s---------");
    assert_eq!(permission_string(0o060660), "brw-rw----");
    assert_eq!(permission_string(0o020620), "crw--w----");
    assert_eq!(permission_string(0o010600), "prw-------");
    assert_eq!(permission_string(0o000600), "?rw-------");
    // Set-user-ID, with and without the right to execute.
    assert_eq!(permission_string(0o104755), "-rwsr-xr-x");
    assert_eq!(permission_string(0o104644), "-rwSr--r--");
    // Set-group-ID.
    assert_eq!(permission_string(0o102755), "-rwxr-sr-x");
    assert_eq!(permission_string(0o102745), "-rwxr-Sr-x");
    // Sticky, whether or not others may execute.
    assert_eq!(permission_string(0o041777), "drwxrwxrwt");
    assert_eq!(permission_string(0o041776), "drwxrwxrwt");
}

#[test]
fn attribute_strings() {
    assert_eq!(attribute_string(0), "-----");
    assert_eq!(attribute_string(0x10), "d----");
    assert_eq!(attribute_string(0x20), "-a---");
    assert_eq!(attribute_string(0x01 | 0x02 | 0x04), "--rhs");
    assert_eq!(attribute_string(0x37), "darhs");
}

#[test]
fn modes_by_platform() {
    match extract_mode(&some_metadata(RawMode::Permissions(0o100600))) {
        Mode::Permissions(text) => assert_eq!(text, "-rw-------"),
        other => panic!("{:?}", other),
    }
    match extract_mode(&some_metadata(RawMode::Attributes(0x21))) {
        Mode::Attributes(text) => assert_eq!(text, "-ar--"),
        other => panic!("{:?}", other),
    }
    assert!(matches!(
        extract_mode(&some_metadata(RawMode::Unknown)),
        Mode::Unknown
    ));
}

#[test]
fn a_directory_node_starts_without_size() {
    let mut metadata = some_metadata(RawMode::Unknown);
    assert!(EntryNode::new_dir("d".to_string(), PathBuf::from("/d"), Some(metadata)).is_none());
    assert!(EntryNode::new_dir("d".to_string(), PathBuf::from("/d"), None).is_none());
    metadata.is_dir = true;
    let (node, size) =
        EntryNode::new_dir("d".to_string(), PathBuf::from("/d"), Some(metadata)).unwrap();
    assert_eq!(node.name, "d");
    assert_eq!(node.path, PathBuf::from("/d"));
    assert_eq!(node.sizes, EntrySize::new(0, 0));
    assert_eq!(node.descendants_count, 0);
    assert_eq!(node.entry_type, EntryType::Directory);
    assert_eq!(node.metadata, metadata);
    assert_eq!(size, EntrySize::new(12, 4096));
    assert_eq!(metadata.size(), EntrySize::new(12, 4096));
}

#[test]
fn a_record_becomes_a_node() {
    let record = DirEntryRecord {
        name: "f".to_string(),
        path: PathBuf::from("/d/f"),
        kind: DirEntryKind::File,
        metadata: Some(some_metadata(RawMode::Unknown)),
    };
    assert!(record.is_file());
    assert!(!record.is_dir());
    let node = EntryNode::try_from(&record).unwrap();
    assert_eq!(node.name, "f");
    assert_eq!(node.path, PathBuf::from("/d/f"));
    assert_eq!(node.sizes, EntrySize::new(12, 4096));
    assert_eq!(node.entry_type, EntryType::File(FileType::Text));
    let copy = node.clone();
    assert_eq!(copy.name, node.name);
    assert_eq!(copy.path, node.path);
    assert_eq!(copy.sizes, node.sizes);
    assert_eq!(copy.metadata, node.metadata);

    let directory = DirEntryRecord {
        name: "d".to_string(),
        path: PathBuf::from("/d/d"),
        kind: DirEntryKind::Directory,
        metadata: Some(some_metadata(RawMode::Unknown)),
    };
    assert_eq!(
        EntryNode::try_from(&directory).unwrap().entry_type,
        EntryType::Directory
    );
    let other = DirEntryRecord {
        name: "l".to_string(),
        path: PathBuf::from("/d/l"),
        kind: DirEntryKind::Other,
        metadata: Some(some_metadata(RawMode::Unknown)),
    };
    assert_eq!(
        EntryNode::try_from(&other).unwrap().entry_type,
        EntryType::File(FileType::Text)
    );
    let unreadable = DirEntryRecord {
        name: "u".to_string(),
        path: PathBuf::from("/d/u"),
        kind: DirEntryKind::File,
        metadata: None,
    };
    assert_eq!(
        EntryNode::try_from(&unreadable).err(),
        Some("Error getting metadata from DirEntry")
    );
}

#[test]
fn a_view_shows_its_entry() {
    let record = DirEntryRecord {
        name: "f".to_string(),
        path: PathBuf::from("/d/f"),
        kind: DirEntryKind::File,
        metadata: Some(some_metadata(RawMode::Permissions(0o100640))),
    };
    let node = EntryNode::try_from(&record).unwrap();
    let view = EntryNodeView::from_entry_node(&node);
    assert_eq!(view.name, "f");
    assert_eq!(view.path, PathBuf::from("/d/f"));
    assert_eq!(view.sizes, EntrySize::new(12, 4096));
    assert_eq!(view.descendants_count, 0);
    assert_eq!(view.entry_type, EntryType::File(FileType::Text));
    assert_eq!(
        view.access_time,
        Some(Timestamp {
            seconds: 1_700_000_000,
            nanoseconds: 5
        })
    );
    assert_eq!(view.index_to_original_node, None);
    match view.mode {
        Mode::Permissions(text) => assert_eq!(text, "-rw-r-----"),
        other => panic!("{:?}", other),
    }

    let fresh = EntryNodeView::new_dir("d".to_string(), PathBuf::from("/d"));
    assert_eq!(fresh.name, "d");
    assert_eq!(fresh.sizes, EntrySize::new(0, 0));
    assert_eq!(fresh.entry_type, EntryType::Directory);
    assert!(matches!(fresh.mode, Mode::Unknown));
    assert!(fresh.access_time.is_none());
    assert!(fresh.index_to_original_node.is_none());
}

#[test]
fn sizes_add_and_subtract() {
    let a = EntrySize::new(10, 4096);
    let b = EntrySize::new(3, 512);
    assert_eq!(a + b, EntrySize::new(13, 4608));
    assert_eq!(a - b, EntrySize::new(7, 3584));
    let mut c = a;
    c.add_assign(b);
    assert_eq!(c, EntrySize::new(13, 4608));
    c.sub_assign(a);
    assert_eq!(c, b);
    assert_eq!(EntrySize::default(), EntrySize::new(0, 0));
    assert_eq!(a.checked_add(b), Some(EntrySize::new(13, 4608)));
    assert_eq!(EntrySize::new(u64::MAX, 0).checked_add(b), None);
    assert_eq!(EntrySize::new(0, u64::MAX).checked_add(b), None);
    assert_eq!(
        EntrySize::new(u64::MAX - 3, 0).checked_add(b),
        Some(EntrySize::new(u64::MAX, 512))
    );
}

fn plain_entry(name: &str, size: u64) -> EntryNode {
    EntryNode {
        name: name.to_string(),
        path: PathBuf::from(name),
        sizes: EntrySize::new(size, size),
        descendants_count: 0,
        entry_type: EntryType::Directory,
        metadata: some_metadata(RawMode::Unknown),
    }
}

#[test]
fn a_size_travels_from_a_node_to_the_root() {
    let mut tree = Tree::new();
    let root = tree.create_node_and_set_root(plain_entry("r", 100)).unwrap();
    let left = tree.attach_child(root, plain_entry("l", 40));
    let right = tree.attach_child(root, plain_entry("x", 60));
    let leaf = tree.attach_child(left, plain_entry("y", 40));
    assert!(DiskoTree::chain_fits(&tree, leaf, EntrySize::new(5, 7)));
    DiskoTree::backprop_size(&mut tree, leaf, EntrySize::new(5, 7), BackpropOperation::Add);
    assert_eq!(tree.node(leaf).data.sizes, EntrySize::new(45, 47));
    assert_eq!(tree.node(left).data.sizes, EntrySize::new(45, 47));
    assert_eq!(tree.node(root).data.sizes, EntrySize::new(105, 107));
    assert_eq!(tree.node(right).data.sizes, EntrySize::new(60, 60));
    DiskoTree::backprop_size(
        &mut tree,
        left,
        EntrySize::new(45, 47),
        BackpropOperation::Subtract,
    );
    assert_eq!(tree.node(leaf).data.sizes, EntrySize::new(45, 47));
    assert_eq!(tree.node(left).data.sizes, EntrySize::new(0, 0));
    assert_eq!(tree.node(root).data.sizes, EntrySize::new(60, 60));
    // The root cannot take what would leave u64, and the check says so.
    assert!(!DiskoTree::chain_fits(
        &tree,
        leaf,
        EntrySize::new(u64::MAX - 59, 0)
    ));
    assert!(DiskoTree::chain_fits(
        &tree,
        leaf,
        EntrySize::new(u64::MAX - 60, 0)
    ));
}

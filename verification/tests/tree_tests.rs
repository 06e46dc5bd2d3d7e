use disko::tree::{Tree, TreeError};

#[test]
fn tests_test_set_root() {
    let mut tree = Tree::new();
    let root = tree.create_node_and_set_root(0);
    assert!(root.is_ok());
    assert!(tree.get_root().is_some());
    assert_eq!(tree.node(tree.get_root().unwrap()).data, 0);
    assert!(tree.node(tree.get_root().unwrap()).children.is_empty());
}

#[test]
fn tests_test_get_root() {
    let mut tree = Tree::new();
    let root = tree.create_node_and_set_root(0).unwrap();
    let root2 = tree.get_root().unwrap();
    assert_eq!(tree.node(root).data, tree.node(root2).data);
}

#[test]
fn tests_test_attach_child() {
    let mut tree = Tree::new();
    let root = tree.create_node_and_set_root(0).unwrap();
    let child = tree.attach_child(root, 1);
    assert_eq!(tree.node(root).children.len(), 1);
    assert_eq!(
        tree.node(*tree.node(root).children.first().unwrap()).data,
        1
    );
    assert_eq!(
        tree.upgrade(tree.node(child).parent.unwrap()).unwrap().data,
        0
    );
    assert_eq!(tree.node(child).data, 1);
}

#[test]
fn tests_test_remove_subtree() {
    let mut tree = Tree::new();
    let root = tree.create_node_and_set_root(0).unwrap();
    let child = tree.attach_child(root, 1);
    assert!(tree.remove_subtree(child).is_ok());
    assert!(tree.node(child).parent.is_none());
    assert!(tree.node(child).children.is_empty());
    assert!(tree.node(root).children.is_empty());
}

#[test]
fn tests_test_remove_subree_with_two_layers() {
    let mut tree = Tree::new();
    let root = tree.create_node_and_set_root(0).unwrap();
    let child = tree.attach_child(root, 1);
    let child2 = tree.attach_child(child, 2);

    assert!(tree.remove_subtree(child).is_ok());

    assert!(tree.node(child).parent.is_none());
    assert!(tree.node(root).get_children().is_empty());
    assert!(tree.node(root).children.is_empty());

    // Removal does not touch the children of the node that left.
    assert!(!tree.node(child).children.is_empty());

    // Nor the parent links further down.
    assert!(tree.node(child2).parent.is_some());

    // Nor the children further down.
    assert!(tree.node(child2).children.is_empty());
}

#[test]
fn tree_test_set_root() {
    let mut tree = Tree::new();
    let root = tree.create_and_set_root(0);
    assert!(root.is_some());
    assert!(tree.get_root().is_some());
    assert_eq!(tree.node(tree.get_root().unwrap()).data, 0);
    assert!(tree.node(tree.get_root().unwrap()).children.is_empty());
}

#[test]
fn tree_test_get_root() {
    let mut tree = Tree::new();
    let root = tree.create_and_set_root(0).unwrap();
    let root2 = tree.get_root().unwrap();
    assert_eq!(tree.node(root).data, tree.node(root2).data);
}

#[test]
fn tree_test_attach_child() {
    let mut tree = Tree::new();
    let root = tree.create_and_set_root(0).unwrap();
    let child = tree.attach_child(root, 1);
    assert_eq!(tree.node(root).children.len(), 1);
    assert_eq!(
        tree.node(*tree.node(root).children.first().unwrap()).data,
        1
    );
    assert_eq!(
        tree.upgrade(tree.node(child).get_parent().unwrap())
            .unwrap()
            .data,
        0
    );
    assert_eq!(tree.node(child).data, 1);
}

#[test]
fn tree_test_remove_subtree() {
    let mut tree = Tree::new();
    let root = tree.create_and_set_root(0).unwrap();
    let child = tree.attach_child(root, 1);
    tree.remove_subtree(child).unwrap();
    assert!(tree.node(child).parent.is_none());
    assert!(tree.node(child).children.is_empty());
    assert!(tree.node(root).children.is_empty());
}

#[test]
fn tree_test_remove_subree_with_two_layers() {
    let mut tree = Tree::new();
    let root = tree.create_and_set_root(0).unwrap();
    let child = tree.attach_child(root, 1);
    let child2 = tree.attach_child(child, 2);

    tree.remove_subtree(child).unwrap();

    assert!(tree.node(child).parent.is_none());
    assert!(tree.node(root).get_children().is_empty());
    assert!(tree.node(root).children.is_empty());
    assert!(!tree.node(child).children.is_empty());
    assert!(tree.node(child2).parent.is_some());
    assert!(tree.node(child2).children.is_empty());
}

#[test]
fn second_root_is_refused_and_root_stays() {
    let mut tree = Tree::new();
    let root = tree.create_node_and_set_root(7).unwrap();
    assert_eq!(
        tree.create_node_and_set_root(8),
        Err(TreeError::AlreadyHasRoot)
    );
    assert_eq!(tree.get_root(), Some(root));
    assert_eq!(tree.node(root).data, 7);
    assert_eq!(tree.create_and_set_root(9), None);
    assert_eq!(tree.get_root(), Some(root));
}

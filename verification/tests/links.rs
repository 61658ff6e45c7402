use avl_trees::links::{get_child_type, is_right_child};
use avl_trees::node::{ChildType, Node};

fn node(value: i32, left: Option<usize>, right: Option<usize>, parent: Option<usize>) -> Node<i32> {
    Node { value, right, left, parent }
}

/// Slot 0 is the root, slots 1 and 2 are its children, slot 3 hangs left of
/// slot 2.
fn small_arena() -> Vec<Node<i32>> {
    vec![
        node(10, Some(1), Some(2), None),
        node(5, None, None, Some(0)),
        node(15, Some(3), None, Some(0)),
        node(12, None, None, Some(2)),
    ]
}

#[test]
fn new_node_has_no_links() {
    let n = Node::new(7);
    assert_eq!(n.value, 7);
    assert_eq!(n.left, None);
    assert_eq!(n.right, None);
    assert_eq!(n.parent, None);
}

#[test]
fn new_node_with_parent_names_its_parent() {
    let n = Node::new_with_parent(7, 3);
    assert_eq!(n.value, 7);
    assert_eq!(n.left, None);
    assert_eq!(n.right, None);
    assert_eq!(n.parent, Some(3));
}

#[test]
fn child_type_by_position() {
    let nodes = small_arena();
    assert_eq!(get_child_type(&nodes, 0), ChildType::Root);
    assert_eq!(get_child_type(&nodes, 1), ChildType::LeftChild);
    assert_eq!(get_child_type(&nodes, 2), ChildType::RightChild);
    assert_eq!(get_child_type(&nodes, 3), ChildType::LeftChild);
}

#[test]
fn child_type_of_equal_valued_siblings() {
    let nodes = vec![
        node(5, Some(1), Some(2), None),
        node(5, None, None, Some(0)),
        node(5, None, None, Some(0)),
    ];
    assert_eq!(get_child_type(&nodes, 1), ChildType::LeftChild);
    assert_eq!(get_child_type(&nodes, 2), ChildType::RightChild);
}

#[test]
fn child_type_of_only_left_child() {
    let nodes = small_arena();
    // The parent of slot 3 has no right child.
    assert_eq!(nodes[2].right, None);
    assert_eq!(get_child_type(&nodes, 3), ChildType::LeftChild);
}

#[test]
fn right_child_needs_both_links() {
    let nodes = small_arena();
    assert!(is_right_child(&nodes, 2, 0));
    assert!(!is_right_child(&nodes, 1, 0));
    assert!(!is_right_child(&nodes, 3, 2));
    assert!(!is_right_child(&nodes, 0, 0));
    // Slot 3 is not a child of slot 0 at all.
    assert!(!is_right_child(&nodes, 3, 0));
}

#[test]
fn right_child_of_equal_valued_nodes() {
    let nodes = vec![
        node(5, Some(1), Some(2), None),
        node(5, None, None, Some(0)),
        node(5, None, None, Some(0)),
    ];
    assert!(!is_right_child(&nodes, 1, 0));
    assert!(is_right_child(&nodes, 2, 0));
}

#[test]
fn right_child_with_one_sided_links() {
    // Slot 1 names slot 0 as parent, but slot 0 does not name it as a child.
    let nodes = vec![node(1, None, None, None), node(2, None, None, Some(0))];
    assert!(!is_right_child(&nodes, 1, 0));
    // Slot 0 names slot 1 as right child, but slot 1 names no parent.
    let nodes = vec![node(1, None, Some(1), None), node(2, None, None, None)];
    assert!(!is_right_child(&nodes, 1, 0));
}

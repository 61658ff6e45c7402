use avl_trees::Tree;

const ITEMS: [i32; 12] = [12, 5, 18, 9, 2, 35, 15, 13, 17, 16, 38, 20];
const SORTED: [i32; 12] = [2, 5, 9, 12, 13, 15, 16, 17, 18, 20, 35, 38];

fn sample_tree() -> Tree<i32> {
    let mut tree = Tree::new(ITEMS[0]);
    for item in &ITEMS[1..] {
        tree.insert(*item);
    }
    tree
}

/// Walks the tree by `succesor` from its minimum. On distinct values this
/// visits every node through its child and parent links.
fn walk_by_succesor(tree: &Tree<i32>) -> Vec<i32> {
    let mut out = Vec::new();
    if tree.is_empty() {
        return out;
    }
    let mut cur = tree.minimum();
    out.push(cur);
    while let Some(next) = tree.succesor(cur) {
        assert!(out.len() <= 1000);
        out.push(next);
        cur = next;
    }
    out
}

#[test]
fn new_tree_holds_one_value() {
    let tree = Tree::new(15);
    assert!(!tree.is_empty());
    assert_eq!(tree.inorder_tree_walk(), vec![15]);
    assert_eq!(tree.search(15), Some(15));
    assert_eq!(tree.search(14), None);
    assert_eq!(tree.succesor(15), None);
}

#[test]
fn inorder_walk_is_sorted() {
    let tree = sample_tree();
    assert_eq!(tree.inorder_tree_walk(), SORTED.to_vec());
}

#[test]
fn inorder_walk_never_descends() {
    let orders: [[i32; 6]; 4] = [[1, 2, 3, 4, 5, 6], [6, 5, 4, 3, 2, 1], [3, 1, 3, 2, 3, 1], [4, 4, 4, 4, 4, 4]];
    for order in orders.iter() {
        let mut tree = Tree::new(order[0]);
        for item in &order[1..] {
            tree.insert(*item);
        }
        let walk = tree.inorder_tree_walk();
        assert_eq!(walk.len(), 6);
        for pair in walk.windows(2) {
            assert!(pair[0] <= pair[1]);
        }
        let mut expected = order.to_vec();
        expected.sort();
        assert_eq!(walk, expected);
    }
}

#[test]
fn linear_chains_are_accepted() {
    let mut up = Tree::new(0u64);
    let mut down = Tree::new(199u64);
    for i in 1..200u64 {
        up.insert(i);
        down.insert(199 - i);
    }
    let expected: Vec<u64> = (0..200).collect();
    assert_eq!(up.inorder_tree_walk(), expected);
    assert_eq!(down.inorder_tree_walk(), expected);
    assert_eq!(up.minimum(), 0);
    assert_eq!(up.maximum(), 199);
    assert_eq!(down.minimum(), 0);
    assert_eq!(down.maximum(), 199);
}

#[test]
fn search_finds_each_value_right_after_its_insertion() {
    let mut tree = Tree::new(ITEMS[0]);
    assert_eq!(tree.search(ITEMS[0]), Some(ITEMS[0]));
    for item in &ITEMS[1..] {
        assert_eq!(tree.search(*item), None);
        tree.insert(*item);
        assert_eq!(tree.search(*item), Some(*item));
    }
    for item in ITEMS.iter() {
        assert_eq!(tree.search(*item), Some(*item));
    }
}

#[test]
fn insert_lengthens_the_walk_by_one() {
    let mut tree = Tree::new(7);
    for (n, item) in [3, 9, 7, 1, 7].iter().enumerate() {
        tree.insert(*item);
        assert_eq!(tree.inorder_tree_walk().len(), n + 2);
    }
    assert_eq!(tree.inorder_tree_walk(), vec![1, 3, 7, 7, 7, 9]);
}

#[test]
fn succesor_follows_the_walk() {
    let tree = sample_tree();
    for pair in SORTED.windows(2) {
        assert_eq!(tree.succesor(pair[0]), Some(pair[1]));
    }
    assert_eq!(tree.succesor(38), None);
    assert_eq!(walk_by_succesor(&tree), SORTED.to_vec());
}

#[test]
fn succesor_of_absent_value_is_none() {
    let tree = sample_tree();
    assert_eq!(tree.succesor(1), None);
    assert_eq!(tree.succesor(14), None);
    assert_eq!(tree.succesor(100), None);
}

#[test]
fn succesor_of_root_without_right_child_is_none() {
    let mut tree = Tree::new(10);
    tree.insert(5);
    assert_eq!(tree.succesor(10), None);
    assert_eq!(tree.succesor(5), Some(10));
}

#[test]
fn succesor_of_a_repeated_value_is_the_value() {
    let mut tree = Tree::new(5);
    tree.insert(5);
    tree.insert(8);
    assert_eq!(tree.succesor(5), Some(5));
    assert_eq!(tree.succesor(8), None);
}

#[test]
fn delete_each_item_of_the_sample_tree() {
    for item in SORTED.iter() {
        let mut tree = sample_tree();
        assert!(tree.delete(*item));
        let expected: Vec<i32> = SORTED.iter().copied().filter(|v| v != item).collect();
        assert_eq!(expected.len(), 11);
        assert_eq!(tree.inorder_tree_walk(), expected);
        assert_eq!(walk_by_succesor(&tree), expected);
        assert_eq!(tree.search(*item), None);
        assert_eq!(tree.minimum(), expected[0]);
        assert_eq!(tree.maximum(), expected[10]);
        for kept in expected.iter() {
            assert_eq!(tree.search(*kept), Some(*kept));
        }
    }
}

#[test]
fn delete_of_absent_value_changes_nothing() {
    let mut tree = sample_tree();
    assert!(!tree.delete(14));
    assert!(!tree.delete(0));
    assert!(!tree.delete(99));
    assert_eq!(tree.inorder_tree_walk(), SORTED.to_vec());
    assert_eq!(walk_by_succesor(&tree), SORTED.to_vec());
}

#[test]
fn delete_shortens_the_walk_by_one() {
    let mut tree = sample_tree();
    let mut left = SORTED.to_vec();
    for item in ITEMS.iter() {
        let before = tree.inorder_tree_walk().len();
        assert!(tree.delete(*item));
        left.retain(|v| v != item);
        assert_eq!(tree.inorder_tree_walk().len(), before - 1);
        assert_eq!(tree.inorder_tree_walk(), left);
        assert_eq!(walk_by_succesor(&tree), left);
    }
    assert!(tree.is_empty());
}

#[test]
fn delete_leaf() {
    let mut tree = sample_tree();
    assert!(tree.delete(2));
    assert_eq!(tree.inorder_tree_walk(), vec![5, 9, 12, 13, 15, 16, 17, 18, 20, 35, 38]);
    assert_eq!(tree.succesor(5), Some(9));
}

#[test]
fn delete_node_with_only_left_child() {
    let mut tree = sample_tree();
    assert!(tree.delete(17));
    assert_eq!(tree.inorder_tree_walk(), vec![2, 5, 9, 12, 13, 15, 16, 18, 20, 35, 38]);
    assert_eq!(tree.succesor(16), Some(18));
    assert_eq!(tree.succesor(15), Some(16));
}

#[test]
fn delete_node_with_only_right_child() {
    let mut tree = Tree::new(10);
    tree.insert(4);
    tree.insert(6);
    tree.insert(5);
    tree.insert(8);
    assert!(tree.delete(4));
    assert_eq!(tree.inorder_tree_walk(), vec![5, 6, 8, 10]);
    assert_eq!(walk_by_succesor(&tree), vec![5, 6, 8, 10]);
}

#[test]
fn delete_node_whose_follower_is_its_right_child() {
    let mut tree = sample_tree();
    // 35 has the children 20 and 38; 38 is a leaf.
    assert!(tree.delete(35));
    assert_eq!(tree.inorder_tree_walk(), vec![2, 5, 9, 12, 13, 15, 16, 17, 18, 20, 38]);
    assert_eq!(tree.succesor(20), Some(38));
    assert_eq!(tree.succesor(18), Some(20));
    assert_eq!(tree.maximum(), 38);
}

#[test]
fn delete_node_whose_follower_lies_deeper() {
    let mut tree = sample_tree();
    // 12 is the root; its follower 13 is the leftmost node below 18.
    assert!(tree.delete(12));
    assert_eq!(tree.inorder_tree_walk(), vec![2, 5, 9, 13, 15, 16, 17, 18, 20, 35, 38]);
    assert_eq!(tree.succesor(9), Some(13));
    assert_eq!(tree.succesor(13), Some(15));
    assert_eq!(walk_by_succesor(&tree), vec![2, 5, 9, 13, 15, 16, 17, 18, 20, 35, 38]);
}

#[test]
fn delete_node_whose_follower_has_a_right_child() {
    let mut tree = Tree::new(50);
    tree.insert(30);
    tree.insert(80);
    tree.insert(60);
    tree.insert(90);
    tree.insert(70);
    tree.insert(65);
    // The follower of 50 is 60, which hangs left of 80 and has the right child 70.
    assert!(tree.delete(50));
    assert_eq!(tree.inorder_tree_walk(), vec![30, 60, 65, 70, 80, 90]);
    assert_eq!(walk_by_succesor(&tree), vec![30, 60, 65, 70, 80, 90]);
    assert!(tree.delete(60));
    assert_eq!(walk_by_succesor(&tree), vec![30, 65, 70, 80, 90]);
}

#[test]
fn delete_root_until_empty() {
    let mut tree = Tree::new(1);
    assert!(tree.delete(1));
    assert!(tree.is_empty());
    assert_eq!(tree.inorder_tree_walk(), Vec::<i32>::new());
    assert_eq!(tree.search(1), None);
    assert_eq!(tree.succesor(1), None);
    assert!(!tree.delete(1));
    assert!(tree.is_empty());
}

#[test]
fn insert_into_emptied_tree() {
    let mut tree = Tree::new(1);
    assert!(tree.delete(1));
    tree.insert(4);
    tree.insert(2);
    tree.insert(6);
    assert!(!tree.is_empty());
    assert_eq!(tree.inorder_tree_walk(), vec![2, 4, 6]);
    assert_eq!(tree.minimum(), 2);
    assert_eq!(tree.maximum(), 6);
    assert_eq!(walk_by_succesor(&tree), vec![2, 4, 6]);
}

#[test]
fn delete_takes_one_of_several_equal_values() {
    let mut tree = Tree::new(5);
    tree.insert(5);
    tree.insert(3);
    tree.insert(5);
    tree.insert(7);
    assert_eq!(tree.inorder_tree_walk(), vec![3, 5, 5, 5, 7]);
    assert!(tree.delete(5));
    assert_eq!(tree.inorder_tree_walk(), vec![3, 5, 5, 7]);
    assert_eq!(tree.search(5), Some(5));
    assert!(tree.delete(5));
    assert!(tree.delete(5));
    assert_eq!(tree.inorder_tree_walk(), vec![3, 7]);
    assert_eq!(tree.search(5), None);
    assert!(!tree.delete(5));
    assert_eq!(tree.succesor(3), Some(7));
}

#[test]
fn slots_are_used_again() {
    let mut tree = Tree::new(0u8);
    for round in 0..50u8 {
        for v in 1..=20u8 {
            tree.insert(v);
        }
        for v in 1..=20u8 {
            assert!(tree.delete(v));
        }
        assert_eq!(tree.inorder_tree_walk(), vec![0u8]);
        tree.insert(round);
        assert!(tree.delete(round));
        assert_eq!(tree.inorder_tree_walk(), vec![0u8]);
    }
    assert!(tree.delete(0));
    assert_eq!(tree.inorder_tree_walk(), Vec::<u8>::new());
}

#[test]
fn mixed_inserts_and_deletes_agree_with_a_sorted_vector() {
    let mut tree = Tree::new(500i64);
    let mut model: Vec<i64> = vec![500];
    let mut x: i64 = 12345;
    for step in 0..2000 {
        x = (x * 1103515245 + 12345) % 2147483648;
        let v = (x / 65536) % 64;
        if step % 3 == 2 {
            let present = model.contains(&v);
            assert_eq!(tree.delete(v), present);
            if let Some(at) = model.iter().position(|m| *m == v) {
                model.remove(at);
            }
        } else {
            tree.insert(v);
            let at = model.iter().position(|m| *m > v).unwrap_or(model.len());
            model.insert(at, v);
        }
        assert_eq!(tree.is_empty(), model.is_empty());
        if step % 50 == 0 {
            assert_eq!(tree.inorder_tree_walk(), model);
            if !model.is_empty() {
                assert_eq!(tree.minimum(), model[0]);
                assert_eq!(tree.maximum(), model[model.len() - 1]);
            }
        }
    }
    assert_eq!(tree.inorder_tree_walk(), model);
}

#[test]
fn signed_values_are_ordered_by_value() {
    let mut tree = Tree::new(0i8);
    tree.insert(-128);
    tree.insert(127);
    tree.insert(-1);
    assert_eq!(tree.inorder_tree_walk(), vec![-128, -1, 0, 127]);
    assert_eq!(tree.minimum(), -128);
    assert_eq!(tree.maximum(), 127);
    assert_eq!(tree.succesor(-1), Some(0));
}

use balanced_trees::avl::{AVLBaseErr, AVLTree};
use balanced_trees::walk::{indent, Route, Visit, PRINT_SPACE_GLOBAL};
use std::collections::BTreeMap;

fn shape(tree: &AVLTree<usize, usize>, route: Route) -> Vec<(usize, usize, usize)> {
    tree.traverse(route).iter().map(|v| (v.depth, *v.key, v.tag)).collect()
}

fn keys_of(visits: &[Visit<usize, usize, usize>]) -> Vec<usize> {
    visits.iter().map(|v| *v.key).collect()
}

/// Checks the subtree that an in-order list of visits describes, whose top
/// node is at `depth`, and returns its height.
fn check_levels(visits: &[(usize, usize, usize)], depth: usize) -> usize {
    if visits.is_empty() {
        return 0;
    }
    let tops: Vec<usize> = (0..visits.len()).filter(|&i| visits[i].0 == depth).collect();
    assert_eq!(tops.len(), 1, "one top node at depth {}", depth);
    let top = tops[0];
    let left = check_levels(&visits[..top], depth + 1);
    let right = check_levels(&visits[top + 1..], depth + 1);
    let height = 1 + left.max(right);
    assert!(left <= right + 1 && right <= left + 1, "balance at key {}", visits[top].1);
    assert_eq!(visits[top].2, height, "level at key {}", visits[top].1);
    height
}

/// Checks every structural rule of an AVL tree on what the traversals show.
fn check_tree(tree: &AVLTree<usize, usize>) {
    let visits = shape(tree, Route::InOrder);
    assert_eq!(visits.len(), tree.len());
    for pair in visits.windows(2) {
        assert!(pair[0].1 < pair[1].1, "keys ascend");
    }
    let height = check_levels(&visits, 0);
    assert_eq!(tree.get_height(), Some(height));
    assert_eq!(tree.is_empty(), visits.is_empty());
}

fn twenty() -> AVLTree<usize, usize> {
    let mut tree: AVLTree<usize, usize> = AVLTree::new();
    tree.insert(4, 4).unwrap();
    tree.insert(5, 5).unwrap();
    tree.insert(2, 2).unwrap();
    tree.insert(1, 1).unwrap();
    tree.insert(3, 3).unwrap();
    tree.insert(6, 6).unwrap();
    tree.insert(0, 0).unwrap();
    tree.insert(9, 9).unwrap();
    tree.insert(11, 11).unwrap();
    tree.insert(13, 13).unwrap();
    tree.insert(67, 67).unwrap();
    tree.insert(68, 68).unwrap();
    tree.insert(69, 69).unwrap();
    tree.insert(77, 77).unwrap();
    tree.insert(88, 88).unwrap();
    tree.insert(99, 99).unwrap();
    tree.insert(608, 608).unwrap();
    tree.insert(111, 111).unwrap();
    tree.insert(222, 222).unwrap();
    tree.insert(300, 300).unwrap();
    tree
}

#[test]
fn avl_insert_test() {
    let mut tree: AVLTree<usize, usize> = AVLTree::new();

    tree.insert(4, 4).unwrap();
    tree.insert(5, 5).unwrap();
    tree.insert(2, 2).unwrap();
    tree.insert(1, 1).unwrap();
    tree.insert(3, 3).unwrap();
    tree.insert(6, 6).unwrap();
    tree.insert(0, 0).unwrap();
    tree.insert(9, 9).unwrap();
    tree.insert(11, 11).unwrap();
    tree.insert(13, 13).unwrap();
    tree.insert(67, 67).unwrap();
    tree.insert(68, 68).unwrap();
    tree.insert(69, 69).unwrap();
    tree.insert(77, 77).unwrap();
    tree.insert(88, 88).unwrap();
    tree.insert(99, 99).unwrap();
    tree.insert(608, 608).unwrap();
    tree.insert(111, 111).unwrap();
    tree.insert(222, 222).unwrap();
    tree.insert(300, 300).unwrap();

    assert_eq!(tree.len(), 20);
    check_tree(&tree);
    let drawn: Vec<(usize, usize, usize)> = vec![
        (4, 608, 1),
        (3, 300, 2),
        (4, 222, 1),
        (2, 111, 3),
        (4, 99, 1),
        (3, 88, 2),
        (4, 77, 1),
        (1, 69, 4),
        (4, 68, 1),
        (3, 67, 2),
        (4, 13, 1),
        (2, 11, 3),
        (4, 9, 1),
        (3, 6, 2),
        (4, 5, 1),
        (0, 4, 5),
        (2, 3, 1),
        (1, 2, 3),
        (2, 1, 2),
        (3, 0, 1),
    ];
    assert_eq!(shape(&tree, Route::Sideways), drawn);
}

#[test]
fn avl_height_test() {
    let mut tree: AVLTree<usize, usize> = AVLTree::new();

    tree.insert(4, 4).unwrap();
    tree.insert(5, 5).unwrap();
    tree.insert(2, 2).unwrap();
    tree.insert(1, 1).unwrap();
    tree.insert(3, 3).unwrap();
    tree.insert(6, 6).unwrap();
    tree.insert(0, 0).unwrap();
    tree.insert(9, 9).unwrap();

    let h = tree.get_height().unwrap();
    assert_eq!(h, 4);
}

#[test]
fn avl_print_inorder_test() {
    let mut tree: AVLTree<usize, usize> = AVLTree::new();

    tree.insert(4, 4).unwrap();
    tree.insert(5, 5).unwrap();
    tree.insert(2, 2).unwrap();
    tree.insert(1, 1).unwrap();
    tree.insert(3, 3).unwrap();
    tree.insert(6, 6).unwrap();
    tree.insert(0, 0).unwrap();
    tree.insert(9, 9).unwrap();
    tree.insert(11, 11).unwrap();
    tree.insert(13, 13).unwrap();
    tree.insert(67, 67).unwrap();
    tree.insert(68, 68).unwrap();
    tree.insert(69, 69).unwrap();
    tree.insert(77, 77).unwrap();
    tree.insert(88, 88).unwrap();
    tree.insert(99, 99).unwrap();
    tree.insert(608, 608).unwrap();
    tree.insert(111, 111).unwrap();
    tree.insert(222, 222).unwrap();
    tree.insert(300, 300).unwrap();

    let drawn = tree.traverse(Route::Sideways);
    assert_eq!(drawn.len(), 20);
    assert_eq!(*drawn[0].key, 608);
    assert_eq!(*drawn[19].key, 0);

    let expected: Vec<(usize, usize, usize)> = vec![
        (3, 0, 1),
        (2, 1, 2),
        (1, 2, 3),
        (2, 3, 1),
        (0, 4, 5),
        (4, 5, 1),
        (3, 6, 2),
        (4, 9, 1),
        (2, 11, 3),
        (4, 13, 1),
        (3, 67, 2),
        (4, 68, 1),
        (1, 69, 4),
        (4, 77, 1),
        (3, 88, 2),
        (4, 99, 1),
        (2, 111, 3),
        (4, 222, 1),
        (3, 300, 2),
        (4, 608, 1),
    ];
    assert_eq!(shape(&tree, Route::InOrder), expected);
}

#[test]
fn avl_print_preorder_test() {
    let mut tree: AVLTree<usize, usize> = AVLTree::new();

    tree.insert(4, 4).unwrap();
    tree.insert(5, 5).unwrap();
    tree.insert(2, 2).unwrap();
    tree.insert(1, 1).unwrap();
    tree.insert(3, 3).unwrap();
    tree.insert(6, 6).unwrap();
    tree.insert(0, 0).unwrap();
    tree.insert(9, 9).unwrap();
    tree.insert(11, 11).unwrap();
    tree.insert(13, 13).unwrap();
    tree.insert(67, 67).unwrap();
    tree.insert(68, 68).unwrap();
    tree.insert(69, 69).unwrap();
    tree.insert(77, 77).unwrap();
    tree.insert(88, 88).unwrap();
    tree.insert(99, 99).unwrap();
    tree.insert(608, 608).unwrap();
    tree.insert(111, 111).unwrap();
    tree.insert(222, 222).unwrap();
    tree.insert(300, 300).unwrap();

    let drawn = tree.traverse(Route::Sideways);
    assert_eq!(drawn.len(), 20);
    assert_eq!(*drawn[0].key, 608);
    assert_eq!(*drawn[19].key, 0);

    let expected: Vec<(usize, usize, usize)> = vec![
        (0, 4, 5),
        (1, 2, 3),
        (2, 1, 2),
        (3, 0, 1),
        (2, 3, 1),
        (1, 69, 4),
        (2, 11, 3),
        (3, 6, 2),
        (4, 5, 1),
        (4, 9, 1),
        (3, 67, 2),
        (4, 13, 1),
        (4, 68, 1),
        (2, 111, 3),
        (3, 88, 2),
        (4, 77, 1),
        (4, 99, 1),
        (3, 300, 2),
        (4, 222, 1),
        (4, 608, 1),
    ];
    assert_eq!(shape(&tree, Route::PreOrder), expected);
}

#[test]
fn avl_print_postorder_test() {
    let mut tree: AVLTree<usize, usize> = AVLTree::new();

    tree.insert(4, 4).unwrap();
    tree.insert(5, 5).unwrap();
    tree.insert(2, 2).unwrap();
    tree.insert(1, 1).unwrap();
    tree.insert(3, 3).unwrap();
    tree.insert(6, 6).unwrap();
    tree.insert(0, 0).unwrap();
    tree.insert(9, 9).unwrap();
    tree.insert(11, 11).unwrap();
    tree.insert(13, 13).unwrap();
    tree.insert(67, 67).unwrap();
    tree.insert(68, 68).unwrap();
    tree.insert(69, 69).unwrap();
    tree.insert(77, 77).unwrap();
    tree.insert(88, 88).unwrap();
    tree.insert(99, 99).unwrap();
    tree.insert(608, 608).unwrap();
    tree.insert(111, 111).unwrap();
    tree.insert(222, 222).unwrap();
    tree.insert(300, 300).unwrap();

    let drawn = tree.traverse(Route::Sideways);
    assert_eq!(drawn.len(), 20);
    assert_eq!(*drawn[0].key, 608);
    assert_eq!(*drawn[19].key, 0);

    let expected: Vec<(usize, usize, usize)> = vec![
        (3, 0, 1),
        (2, 1, 2),
        (2, 3, 1),
        (1, 2, 3),
        (4, 5, 1),
        (4, 9, 1),
        (3, 6, 2),
        (4, 13, 1),
        (4, 68, 1),
        (3, 67, 2),
        (2, 11, 3),
        (4, 77, 1),
        (4, 99, 1),
        (3, 88, 2),
        (4, 222, 1),
        (4, 608, 1),
        (3, 300, 2),
        (2, 111, 3),
        (1, 69, 4),
        (0, 4, 5),
    ];
    assert_eq!(shape(&tree, Route::PostOrder), expected);
}

#[test]
fn avl_eight_keys_stay_within_the_height_bound() {
    let mut tree: AVLTree<usize, usize> = AVLTree::new();
    tree.insert(4, 4).unwrap();
    tree.insert(5, 5).unwrap();
    tree.insert(2, 2).unwrap();
    tree.insert(1, 1).unwrap();
    tree.insert(3, 3).unwrap();
    tree.insert(6, 6).unwrap();
    tree.insert(0, 0).unwrap();
    tree.insert(9, 9).unwrap();
    let h = tree.get_height().unwrap();
    let bound = (1.44_f64 * ((9.0_f64 + 2.0).log2())).ceil() as usize;
    assert_eq!(bound, 5);
    assert!(h <= bound);
    assert_eq!(h, 4);
    check_tree(&tree);
    let expected: Vec<(usize, usize, usize)> = vec![
        (0, 4, 4),
        (1, 2, 3),
        (2, 1, 2),
        (3, 0, 1),
        (2, 3, 1),
        (1, 6, 2),
        (2, 5, 1),
        (2, 9, 1),
    ];
    assert_eq!(shape(&tree, Route::PreOrder), expected);
}

#[test]
fn avl_remove_eleven_of_twenty() {
    let mut tree: AVLTree<usize, usize> = AVLTree::new();
    for k in 1..=20 {
        tree.insert(k, k * 10).unwrap();
        check_tree(&tree);
    }
    let before: Vec<(usize, usize, usize)> = vec![
        (0, 8, 5),
        (1, 4, 3),
        (2, 2, 2),
        (3, 1, 1),
        (3, 3, 1),
        (2, 6, 2),
        (3, 5, 1),
        (3, 7, 1),
        (1, 16, 4),
        (2, 12, 3),
        (3, 10, 2),
        (4, 9, 1),
        (4, 11, 1),
        (3, 14, 2),
        (4, 13, 1),
        (4, 15, 1),
        (2, 18, 3),
        (3, 17, 1),
        (3, 19, 2),
        (4, 20, 1),
    ];
    assert_eq!(shape(&tree, Route::PreOrder), before);
    assert_eq!(tree.remove_node(&11), Some((11, 110)));
    check_tree(&tree);
    assert_eq!(tree.len(), 19);
    assert_eq!(tree.find_node(&11), None);
    let after: Vec<(usize, usize, usize)> = vec![
        (0, 8, 5),
        (1, 4, 3),
        (2, 2, 2),
        (3, 1, 1),
        (3, 3, 1),
        (2, 6, 2),
        (3, 5, 1),
        (3, 7, 1),
        (1, 16, 4),
        (2, 12, 3),
        (3, 10, 2),
        (4, 9, 1),
        (3, 14, 2),
        (4, 13, 1),
        (4, 15, 1),
        (2, 18, 3),
        (3, 17, 1),
        (3, 19, 2),
        (4, 20, 1),
    ];
    assert_eq!(shape(&tree, Route::PreOrder), after);
}

#[test]
fn avl_empty_tree() {
    let mut tree: AVLTree<usize, usize> = AVLTree::new();
    assert!(tree.is_empty());
    assert_eq!(tree.len(), 0);
    assert_eq!(tree.get_height(), Some(0));
    assert_eq!(tree.find_node(&7), None);
    assert_eq!(tree.remove_node(&7), None);
    assert!(tree.traverse(Route::InOrder).is_empty());
    assert!(tree.traverse_from(&7, Route::Sideways).is_empty());
    assert!(tree.is_empty());
    check_tree(&tree);
}

#[test]
fn avl_single_rotation_to_the_right() {
    let mut tree: AVLTree<usize, usize> = AVLTree::new();
    tree.insert(3, 3).unwrap();
    tree.insert(2, 2).unwrap();
    tree.insert(1, 1).unwrap();
    let expected: Vec<(usize, usize, usize)> = vec![
        (0, 2, 2),
        (1, 1, 1),
        (1, 3, 1),
    ];
    assert_eq!(shape(&tree, Route::PreOrder), expected);
}

#[test]
fn avl_single_rotation_to_the_left() {
    let mut tree: AVLTree<usize, usize> = AVLTree::new();
    tree.insert(1, 1).unwrap();
    tree.insert(2, 2).unwrap();
    tree.insert(3, 3).unwrap();
    let expected: Vec<(usize, usize, usize)> = vec![
        (0, 2, 2),
        (1, 1, 1),
        (1, 3, 1),
    ];
    assert_eq!(shape(&tree, Route::PreOrder), expected);
}

#[test]
fn avl_double_rotation_left_then_right() {
    let mut tree: AVLTree<usize, usize> = AVLTree::new();
    tree.insert(3, 3).unwrap();
    tree.insert(1, 1).unwrap();
    tree.insert(2, 2).unwrap();
    let expected: Vec<(usize, usize, usize)> = vec![
        (0, 2, 2),
        (1, 1, 1),
        (1, 3, 1),
    ];
    assert_eq!(shape(&tree, Route::PreOrder), expected);
}

#[test]
fn avl_double_rotation_right_then_left() {
    let mut tree: AVLTree<usize, usize> = AVLTree::new();
    tree.insert(1, 1).unwrap();
    tree.insert(3, 3).unwrap();
    tree.insert(2, 2).unwrap();
    let expected: Vec<(usize, usize, usize)> = vec![
        (0, 2, 2),
        (1, 1, 1),
        (1, 3, 1),
    ];
    assert_eq!(shape(&tree, Route::PreOrder), expected);
}

#[test]
fn avl_duplicate_is_refused_and_changes_nothing() {
    let mut tree = twenty();
    let before = shape(&tree, Route::PreOrder);
    assert_eq!(tree.insert(67, 1), Err(AVLBaseErr::DuplicateErr));
    assert_eq!(tree.len(), 20);
    assert_eq!(tree.find_node(&67), Some(&67));
    assert_eq!(shape(&tree, Route::PreOrder), before);
}

#[test]
fn avl_remove_of_absent_key_changes_nothing() {
    let mut tree = twenty();
    let before = shape(&tree, Route::PreOrder);
    assert_eq!(tree.remove_node(&12), None);
    assert_eq!(tree.len(), 20);
    assert_eq!(shape(&tree, Route::PreOrder), before);
}

#[test]
fn avl_insert_find_remove_round_trip() {
    let mut tree = twenty();
    assert_eq!(tree.insert(50, 500), Ok(()));
    assert_eq!(tree.find_node(&50), Some(&500));
    assert_eq!(tree.len(), 21);
    assert_eq!(tree.remove_node(&50), Some((50, 500)));
    assert_eq!(tree.find_node(&50), None);
    assert_eq!(tree.len(), 20);
    check_tree(&tree);
}

#[test]
fn avl_remove_leaf_one_child_two_children_and_root() {
    let mut tree: AVLTree<usize, usize> = AVLTree::new();
    for k in [50, 30, 70, 20, 40, 60, 80, 10] {
        tree.insert(k, k + 1).unwrap();
    }
    // 10 is a leaf, 20 then has no child; 30 has two children; 50 is the root.
    assert_eq!(tree.remove_node(&10), Some((10, 11)));
    check_tree(&tree);
    tree.insert(10, 11).unwrap();
    assert_eq!(tree.remove_node(&20), Some((20, 21)));
    check_tree(&tree);
    assert_eq!(keys_of(&tree.traverse(Route::InOrder)), vec![10, 30, 40, 50, 60, 70, 80]);
    assert_eq!(tree.remove_node(&30), Some((30, 31)));
    check_tree(&tree);
    assert_eq!(tree.remove_node(&50), Some((50, 51)));
    check_tree(&tree);
    assert_eq!(keys_of(&tree.traverse(Route::InOrder)), vec![10, 40, 60, 70, 80]);
    assert_eq!(keys_of(&tree.traverse(Route::PreOrder))[0], 60);
    assert_eq!(tree.len(), 5);
}

#[test]
fn avl_two_children_takes_the_next_larger_key() {
    let mut tree: AVLTree<usize, usize> = AVLTree::new();
    for k in [2, 1, 4, 3, 5] {
        tree.insert(k, k).unwrap();
    }
    assert_eq!(tree.remove_node(&2), Some((2, 2)));
    let expected: Vec<(usize, usize, usize)> = vec![(0, 3, 3), (1, 1, 1), (1, 4, 2), (2, 5, 1)];
    assert_eq!(shape(&tree, Route::PreOrder), expected);
}

#[test]
fn avl_in_order_ascends_after_every_insert() {
    let mut tree: AVLTree<usize, usize> = AVLTree::new();
    let keys = [4, 5, 2, 1, 3, 6, 0, 9, 11, 13, 67, 68, 69, 77, 88, 99, 608, 111, 222, 300];
    for (n, k) in keys.iter().enumerate() {
        tree.insert(*k, *k).unwrap();
        let seen = keys_of(&tree.traverse(Route::InOrder));
        let mut sorted: Vec<usize> = keys[..=n].to_vec();
        sorted.sort();
        assert_eq!(seen, sorted);
        check_tree(&tree);
    }
}

#[test]
fn avl_every_route_meets_every_entry_once() {
    let tree = twenty();
    let mut sorted = keys_of(&tree.traverse(Route::InOrder));
    sorted.sort();
    for route in [Route::PreOrder, Route::PostOrder, Route::Sideways] {
        let mut seen = keys_of(&tree.traverse(route));
        seen.sort();
        assert_eq!(seen, sorted);
    }
    let down = keys_of(&tree.traverse(Route::Sideways));
    let mut up = keys_of(&tree.traverse(Route::InOrder));
    up.reverse();
    assert_eq!(down, up);
    for v in tree.traverse(Route::PostOrder) {
        assert_eq!(tree.find_node(v.key), Some(v.value));
    }
}

#[test]
fn avl_traverse_from_a_key() {
    let tree = twenty();
    let part: Vec<(usize, usize, usize)> =
        tree.traverse_from(&11, Route::PreOrder).iter().map(|v| (v.depth, *v.key, v.tag)).collect();
    let expected: Vec<(usize, usize, usize)> =
        vec![(0, 11, 3), (1, 6, 2), (2, 5, 1), (2, 9, 1), (1, 67, 2), (2, 13, 1), (2, 68, 1)];
    assert_eq!(part, expected);
    assert!(tree.traverse_from(&12, Route::PreOrder).is_empty());
    let leaf = tree.traverse_from(&608, Route::Sideways);
    assert_eq!(leaf.len(), 1);
    assert_eq!((leaf[0].depth, *leaf[0].key, *leaf[0].value), (0, 608, 608));
}

#[test]
fn avl_len_counts_inserts_less_removes() {
    let mut tree: AVLTree<u32, u32> = AVLTree::new();
    let mut model: BTreeMap<u32, u32> = BTreeMap::new();
    let mut inserted = 0usize;
    let mut removed = 0usize;
    let mut state: u32 = 12345;
    for step in 0..4000u32 {
        state = state.wrapping_mul(1664525).wrapping_add(1013904223);
        let key = (state >> 16) % 200;
        if (state >> 8) % 3 != 0 {
            let fresh = tree.insert(key, step).is_ok();
            assert_eq!(fresh, !model.contains_key(&key));
            if fresh {
                model.insert(key, step);
                inserted += 1;
            }
        } else {
            let gone = tree.remove_node(&key);
            assert_eq!(gone, model.remove(&key).map(|v| (key, v)));
            if gone.is_some() {
                removed += 1;
            }
        }
        assert_eq!(tree.len(), inserted - removed);
        assert_eq!(tree.len(), model.len());
        assert_eq!(tree.find_node(&key), model.get(&key));
    }
    let seen: Vec<(u32, u32)> = tree.traverse(Route::InOrder).iter().map(|v| (*v.key, *v.value)).collect();
    let wanted: Vec<(u32, u32)> = model.iter().map(|(k, v)| (*k, *v)).collect();
    assert_eq!(seen, wanted);
}

#[test]
fn avl_stays_valid_under_mixed_operations() {
    let mut tree: AVLTree<usize, usize> = AVLTree::new();
    let mut state: usize = 99;
    for _ in 0..600 {
        state = state.wrapping_mul(6364136223846793005).wrapping_add(1442695040888963407);
        let key = (state >> 33) % 64;
        if (state >> 20) % 2 == 0 {
            let _ = tree.insert(key, key);
        } else {
            let _ = tree.remove_node(&key);
        }
        check_tree(&tree);
    }
}

#[test]
fn avl_ascending_keys_give_a_low_tree() {
    let mut tree: AVLTree<usize, usize> = AVLTree::new();
    for k in 0..1023 {
        tree.insert(k, k).unwrap();
    }
    assert_eq!(tree.get_height(), Some(10));
    for k in 0..1000 {
        assert_eq!(tree.remove_node(&k), Some((k, k)));
    }
    check_tree(&tree);
    assert_eq!(tree.len(), 23);
}

#[test]
fn avl_keys_need_not_be_numbers() {
    let mut tree: AVLTree<String, Vec<u8>> = AVLTree::new();
    for word in ["pear", "apple", "fig", "quince", "cherry"] {
        tree.insert(word.to_string(), word.as_bytes().to_vec()).unwrap();
    }
    assert_eq!(tree.insert("fig".to_string(), Vec::new()), Err(AVLBaseErr::DuplicateErr));
    let seen: Vec<String> = tree.traverse(Route::InOrder).iter().map(|v| v.key.clone()).collect();
    assert_eq!(seen, vec!["apple", "cherry", "fig", "pear", "quince"]);
    assert_eq!(tree.remove_node(&"pear".to_string()), Some(("pear".to_string(), b"pear".to_vec())));
    assert_eq!(tree.find_node(&"pear".to_string()), None);
    assert_eq!(tree.find_node(&"fig".to_string()), Some(&b"fig".to_vec()));
}

#[test]
fn avl_drawing_moves_in_by_five_columns_a_level() {
    assert_eq!(PRINT_SPACE_GLOBAL, 5);
    assert_eq!(indent(1, 0), 1);
    assert_eq!(indent(1, 3), 16);
    assert_eq!(indent(0, 7), 35);
    let mut tree: AVLTree<usize, usize> = AVLTree::new();
    for k in [2, 1, 3] {
        tree.insert(k, k).unwrap();
    }
    let lines: Vec<(usize, usize)> =
        tree.traverse(Route::Sideways).iter().map(|v| (indent(1, v.depth), *v.key)).collect();
    assert_eq!(lines, vec![(6, 3), (1, 2), (6, 1)]);
}

#[test]
fn avl_long_run_ends_in_the_expected_tree() {
    let ops: [(bool, usize); 400] = [
        (false, 21), (true, 9), (true, 23), (true, 14), (false, 19), (false, 7), (false, 26), (true, 19),
        (false, 5), (true, 1), (true, 0), (true, 19), (false, 25), (true, 29), (false, 46), (false, 26),
        (false, 15), (false, 3), (false, 36), (true, 17), (true, 13), (true, 27), (false, 42), (false, 1),
        (true, 44), (true, 23), (true, 26), (false, 28), (true, 3), (true, 38), (true, 3), (false, 42),
        (true, 46), (true, 13), (false, 0), (true, 34), (true, 15), (true, 23), (true, 33), (false, 27),
        (false, 35), (false, 4), (false, 16), (true, 46), (true, 39), (false, 8), (true, 20), (true, 29),
        (true, 4), (true, 10), (true, 39), (false, 11), (true, 39), (true, 35), (false, 3), (false, 21),
        (false, 4), (true, 26), (true, 44), (true, 23), (false, 10), (true, 9), (false, 26), (false, 47),
        (true, 4), (true, 20), (true, 17), (true, 2), (true, 30), (true, 46), (true, 15), (true, 34),
        (true, 5), (false, 19), (true, 11), (false, 24), (true, 12), (false, 27), (false, 29), (false, 15),
        (true, 23), (false, 8), (true, 22), (false, 15), (true, 27), (true, 39), (true, 46), (false, 35),
        (false, 28), (true, 1), (true, 33), (true, 26), (false, 12), (false, 46), (false, 28), (true, 11),
        (false, 24), (true, 40), (true, 6), (true, 21), (true, 6), (true, 20), (false, 23), (false, 16),
        (true, 8), (false, 36), (true, 10), (false, 0), (true, 20), (true, 4), (false, 15), (false, 25),
        (false, 16), (false, 18), (true, 29), (true, 30), (true, 22), (true, 35), (false, 39), (true, 41),
        (true, 4), (false, 0), (true, 0), (false, 35), (true, 0), (false, 19), (false, 39), (true, 34),
        (true, 19), (true, 1), (false, 28), (true, 22), (true, 47), (false, 20), (false, 38), (true, 4),
        (true, 18), (false, 25), (true, 45), (true, 34), (true, 31), (false, 4), (false, 30), (true, 35),
        (true, 37), (true, 0), (true, 46), (true, 42), (true, 45), (true, 34), (true, 40), (true, 28),
        (true, 47), (false, 28), (true, 10), (false, 30), (true, 18), (false, 0), (false, 9), (false, 2),
        (false, 42), (false, 44), (true, 2), (true, 47), (false, 40), (false, 46), (false, 14), (true, 0),
        (false, 30), (false, 19), (false, 42), (true, 7), (false, 11), (true, 32), (false, 16), (true, 33),
        (true, 20), (true, 11), (false, 20), (false, 8), (true, 40), (true, 8), (false, 28), (true, 32),
        (true, 28), (true, 29), (false, 21), (true, 16), (true, 12), (false, 2), (false, 25), (true, 29),
        (true, 39), (true, 4), (true, 28), (true, 44), (true, 34), (true, 1), (false, 27), (false, 2),
        (true, 26), (false, 1), (false, 1), (false, 0), (true, 3), (true, 15), (true, 41), (false, 8),
        (true, 44), (true, 17), (false, 25), (false, 2), (true, 20), (true, 5), (false, 12), (false, 46),
        (true, 43), (false, 34), (true, 29), (true, 23), (true, 4), (true, 7), (false, 39), (true, 3),
        (true, 22), (false, 32), (false, 21), (true, 7), (true, 30), (true, 23), (false, 2), (true, 17),
        (true, 12), (true, 1), (true, 41), (false, 22), (true, 44), (false, 13), (true, 7), (true, 35),
        (true, 23), (true, 22), (true, 45), (false, 2), (false, 15), (true, 5), (false, 34), (false, 36),
        (false, 7), (false, 39), (true, 16), (true, 19), (true, 20), (true, 15), (true, 28), (true, 19),
        (true, 9), (true, 28), (true, 26), (true, 20), (false, 24), (true, 21), (false, 12), (false, 27),
        (false, 7), (true, 45), (false, 31), (true, 40), (true, 12), (true, 8), (false, 18), (true, 17),
        (true, 27), (true, 32), (false, 30), (false, 14), (true, 40), (false, 0), (false, 15), (false, 33),
        (true, 1), (false, 5), (true, 33), (true, 5), (true, 23), (false, 29), (false, 5), (false, 14),
        (true, 32), (true, 44), (true, 8), (true, 4), (true, 44), (false, 11), (true, 31), (true, 18),
        (false, 14), (false, 7), (true, 17), (false, 3), (false, 37), (true, 3), (false, 43), (true, 20),
        (true, 19), (true, 32), (true, 37), (true, 6), (true, 1), (false, 36), (true, 32), (false, 6),
        (true, 7), (false, 3), (false, 40), (true, 11), (true, 10), (true, 21), (false, 38), (true, 29),
        (true, 27), (true, 41), (false, 11), (true, 29), (true, 26), (false, 9), (false, 47), (true, 6),
        (true, 35), (true, 37), (false, 8), (false, 37), (true, 45), (true, 17), (true, 6), (true, 35),
        (false, 40), (true, 19), (true, 3), (true, 34), (false, 36), (true, 23), (true, 32), (true, 20),
        (true, 21), (true, 31), (false, 6), (false, 5), (true, 4), (false, 47), (true, 11), (true, 19),
        (true, 4), (true, 35), (true, 39), (true, 10), (true, 8), (false, 25), (false, 21), (true, 40),
        (false, 37), (true, 25), (true, 8), (false, 38), (false, 11), (true, 28), (false, 26), (true, 21),
        (false, 27), (true, 40), (false, 10), (false, 3), (true, 28), (true, 15), (true, 34), (true, 21),
        (true, 9), (true, 18), (true, 20), (true, 25), (false, 32), (false, 44), (true, 22), (false, 8),
        (false, 30), (false, 0), (true, 43), (true, 18), (true, 45), (true, 37), (true, 36), (true, 2),
        (true, 27), (true, 34), (true, 31), (false, 12), (false, 35), (true, 41), (false, 30), (true, 6),
    ];
    let mut tree: AVLTree<usize, usize> = AVLTree::new();
    for (insert, key) in ops {
        if insert {
            let _ = tree.insert(key, key);
        } else {
            let _ = tree.remove_node(&key);
        }
    }
    let expected: Vec<(usize, usize, usize)> = vec![
        (0, 28, 6),
        (1, 15, 5),
        (2, 4, 3),
        (3, 1, 2),
        (4, 2, 1),
        (3, 7, 2),
        (4, 6, 1),
        (4, 9, 1),
        (2, 20, 4),
        (3, 17, 3),
        (4, 16, 1),
        (4, 19, 2),
        (5, 18, 1),
        (3, 23, 3),
        (4, 22, 2),
        (5, 21, 1),
        (4, 25, 2),
        (5, 27, 1),
        (1, 36, 4),
        (2, 31, 3),
        (3, 29, 1),
        (3, 33, 2),
        (4, 34, 1),
        (2, 40, 3),
        (3, 37, 2),
        (4, 39, 1),
        (3, 43, 2),
        (4, 41, 1),
        (4, 45, 1),
    ];
    assert_eq!(shape(&tree, Route::PreOrder), expected);
    check_tree(&tree);
}

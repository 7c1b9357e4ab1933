use binary_tree::node::{child, Node};
use binary_tree::tree::Bst;
use binary_tree::walk::ControlSignal;
use std::cell::RefCell;

/// The values of `tree` in the order in which a walk shows them.
fn walk_of(tree: &Bst<i32>) -> Vec<i32> {
    let seen = RefCell::new(Vec::new());
    let signal = tree.traverse(|value: &i32| {
        seen.borrow_mut().push(*value);
        ControlSignal::<()>::Continue
    });
    assert!(matches!(signal, ControlSignal::Continue));
    seen.into_inner()
}

/// The number of nodes on the longest way down from `node`.
fn depth(node: Option<&Node<i32>>) -> usize {
    match node {
        None => 0,
        Some(node) => 1 + depth(child(&node.left)).max(depth(child(&node.right))),
    }
}

#[test]
fn it_works() {
    let mut tree = Bst::from_value(3);
    tree.insert(5);
    tree.insert(4);
    tree.insert(7);
    tree.insert(6);
    tree.insert(1);
    tree.insert(2);
    println!("{:#?}", tree);
}

#[test]
fn can_find() {
    let mut tree = Bst::from_value(3);
    tree.insert(5);
    tree.insert(4);
    let found = tree.root().unwrap().find(5);

    println!("-- found {:#?}", found);
}

#[test]
fn can_traverse() {
    let mut tree = Bst::from_value(3);
    tree.insert(5);
    tree.insert(4);
    tree.insert(2);
}

#[test]
fn walk_yields_values_in_ascending_order() {
    let mut tree = Bst::from_value(3);
    for value in [5, 4, 7, 6, 1, 2] {
        tree.insert(value);
    }
    assert_eq!(walk_of(&tree), vec![1, 2, 3, 4, 5, 6, 7]);
}

#[test]
fn empty_tree_finds_nothing_and_shows_nothing() {
    let tree: Bst<i32> = Bst::new();
    assert!(tree.find(5).is_none());
    assert!(tree.root().is_none());
    let calls = RefCell::new(0);
    let signal = tree.traverse(|_value: &i32| {
        *calls.borrow_mut() += 1;
        ControlSignal::Stop(0)
    });
    assert!(matches!(signal, ControlSignal::Continue));
    assert_eq!(*calls.borrow(), 0);
}

#[test]
fn default_tree_is_empty() {
    let tree: Bst<i32> = Bst::default();
    assert!(tree.root().is_none());
    assert_eq!(walk_of(&tree), Vec::<i32>::new());
}

#[test]
fn find_returns_the_node_that_holds_the_value() {
    let mut tree = Bst::from_value(3);
    tree.insert(5);
    tree.insert(4);
    let found = tree.find(5).unwrap();
    assert_eq!(found.value, 5);
    assert_eq!(found.left.as_ref().unwrap().value, 4);
    assert!(found.right.is_none());
}

#[test]
fn ascending_insertions_form_a_chain_to_the_right() {
    let mut tree = Bst::new();
    for value in 1..=5 {
        tree.insert(value);
    }
    assert_eq!(depth(tree.root()), 5);
    let mut node = tree.root();
    for value in 1..=5 {
        let here = node.unwrap();
        assert_eq!(here.value, value);
        assert!(here.left.is_none());
        node = child(&here.right);
    }
    assert!(node.is_none());
    assert_eq!(walk_of(&tree), vec![1, 2, 3, 4, 5]);
}

#[test]
fn duplicate_goes_to_the_left_of_the_first_equal_node() {
    let mut tree = Bst::from_value(3);
    tree.insert(3);
    assert_eq!(walk_of(&tree), vec![3, 3]);
    let root = tree.root().unwrap();
    assert_eq!(root.value, 3);
    assert_eq!(root.left.as_ref().unwrap().value, 3);
    assert!(root.left.as_ref().unwrap().left.is_none());
    assert!(root.left.as_ref().unwrap().right.is_none());
    assert!(root.right.is_none());
}

#[test]
fn duplicate_below_a_smaller_value_goes_right_of_it_first() {
    let mut tree = Bst::from_value(5);
    tree.insert(2);
    tree.insert(5);
    let root = tree.root().unwrap();
    let two = root.left.as_ref().unwrap();
    assert_eq!(two.value, 2);
    assert_eq!(two.right.as_ref().unwrap().value, 5);
    assert!(root.right.is_none());
    assert_eq!(walk_of(&tree), vec![2, 5, 5]);
}

#[test]
fn from_value_makes_a_single_leaf() {
    let tree = Bst::from_value(9);
    let root = tree.root().unwrap();
    assert_eq!(root.value, 9);
    assert!(root.left.is_none());
    assert!(root.right.is_none());
    assert_eq!(walk_of(&tree), vec![9]);
}

#[test]
fn insert_keeps_what_was_there() {
    let mut tree = Bst::from_value(3);
    tree.insert(5);
    tree.insert(1);
    tree.insert(4);
    let root = tree.root().unwrap();
    assert_eq!(root.value, 3);
    assert_eq!(root.left.as_ref().unwrap().value, 1);
    let five = root.right.as_ref().unwrap();
    assert_eq!(five.value, 5);
    assert_eq!(five.left.as_ref().unwrap().value, 4);
    assert!(five.right.is_none());
}

#[test]
fn walk_is_sorted_whatever_the_order_of_insertion() {
    let orders: [[i32; 6]; 4] = [
        [1, 2, 3, 4, 5, 6],
        [6, 5, 4, 3, 2, 1],
        [4, 1, 6, 2, 5, 3],
        [2, 2, -7, 9, 2, -7],
    ];
    for order in orders {
        let mut tree = Bst::new();
        for value in order {
            tree.insert(value);
        }
        let mut expected = order.to_vec();
        expected.sort();
        assert_eq!(walk_of(&tree), expected);
    }
}

#[test]
fn walk_shows_one_value_for_each_insertion() {
    let mut seeded = Bst::from_value(10);
    let mut empty = Bst::new();
    for (done, value) in [4, 10, 10, 12, 4].into_iter().enumerate() {
        seeded.insert(value);
        empty.insert(value);
        assert_eq!(walk_of(&seeded).len(), done + 2);
        assert_eq!(walk_of(&empty).len(), done + 1);
    }
}

#[test]
fn find_meets_what_was_inserted_and_nothing_else() {
    let mut tree = Bst::from_value(8);
    let inserted = [3, 10, 1, 6, 14, 4, 7, 13];
    for value in inserted {
        tree.insert(value);
    }
    assert_eq!(tree.find(8).unwrap().value, 8);
    for value in inserted {
        assert_eq!(tree.find(value).unwrap().value, value);
    }
    for value in [0, 2, 5, 9, 11, 12, 15, -1] {
        assert!(tree.find(value).is_none());
    }
}

#[test]
fn find_twice_returns_the_same_node() {
    let mut tree = Bst::from_value(8);
    for value in [3, 10, 1, 6] {
        tree.insert(value);
    }
    let first = tree.find(6);
    let second = tree.find(6);
    assert_eq!(first, second);
    assert!(std::ptr::eq(first.unwrap(), second.unwrap()));
    assert_eq!(tree.find(5), tree.find(5));
    assert!(tree.find(5).is_none());
}

#[test]
fn find_returns_the_topmost_of_equal_nodes() {
    let mut tree = Bst::from_value(5);
    tree.insert(3);
    tree.insert(5);
    tree.insert(4);
    let found = tree.find(5).unwrap();
    assert!(std::ptr::eq(found, tree.root().unwrap()));
    let three = tree.find(3).unwrap();
    assert_eq!(three.value, 3);
    assert_eq!(three.right.as_ref().unwrap().value, 5);
    assert_eq!(three.right.as_ref().unwrap().left.as_ref().unwrap().value, 4);
}

#[test]
fn walk_stops_at_the_target_and_shows_nothing_behind_it() {
    let mut tree = Bst::from_value(3);
    for value in [5, 4, 7, 6, 1, 2] {
        tree.insert(value);
    }
    let seen = RefCell::new(Vec::new());
    let signal = tree.traverse(|value: &i32| {
        seen.borrow_mut().push(*value);
        if *value == 4 {
            ControlSignal::Stop(*value * 10)
        } else {
            ControlSignal::Continue
        }
    });
    assert!(matches!(signal, ControlSignal::Stop(40)));
    assert_eq!(seen.into_inner(), vec![1, 2, 3, 4]);
}

#[test]
fn walk_stops_at_the_first_of_equal_targets() {
    let mut tree = Bst::from_value(2);
    for value in [2, 1, 2, 3] {
        tree.insert(value);
    }
    let calls = RefCell::new(0);
    let signal = tree.traverse(|value: &i32| {
        *calls.borrow_mut() += 1;
        if *value == 2 {
            ControlSignal::Stop(*calls.borrow())
        } else {
            ControlSignal::Continue
        }
    });
    assert!(matches!(signal, ControlSignal::Stop(2)));
    assert_eq!(*calls.borrow(), 2);
}

#[test]
fn walk_for_a_missing_target_shows_every_value() {
    let mut tree = Bst::from_value(3);
    for value in [5, 1] {
        tree.insert(value);
    }
    let seen = RefCell::new(Vec::new());
    let signal = tree.traverse(|value: &i32| {
        seen.borrow_mut().push(*value);
        if *value == 4 {
            ControlSignal::Stop(())
        } else {
            ControlSignal::Continue
        }
    });
    assert!(matches!(signal, ControlSignal::Continue));
    assert_eq!(seen.into_inner(), vec![1, 3, 5]);
}

#[test]
fn walk_can_be_started_again_after_a_stop() {
    let mut tree = Bst::from_value(2);
    tree.insert(1);
    tree.insert(3);
    let stop_at_once = |value: &i32| ControlSignal::Stop(*value);
    assert!(matches!(tree.traverse(stop_at_once), ControlSignal::Stop(1)));
    assert!(matches!(tree.traverse(stop_at_once), ControlSignal::Stop(1)));
    assert_eq!(walk_of(&tree), vec![1, 2, 3]);
}

#[test]
fn leaf_has_no_children() {
    let node = Node::leaf(7);
    assert_eq!(node.value, 7);
    assert!(node.left.is_none());
    assert!(node.right.is_none());
    assert!(child(&node.left).is_none());
}

#[test]
fn node_find_goes_left_and_right() {
    let mut slot = Some(Box::new(Node::leaf(10)));
    for value in [5, 15, 12] {
        Bst::push_node(Box::new(Node::leaf(value)), &mut slot);
    }
    let root = slot.as_ref().unwrap();
    assert_eq!(root.find(5).unwrap().value, 5);
    assert_eq!(root.find(12).unwrap().value, 12);
    assert_eq!(root.find(15).unwrap().left.as_ref().unwrap().value, 12);
    assert!(std::ptr::eq(root.find(10).unwrap(), &**root));
    assert!(root.find(11).is_none());
    assert!(Node::find_node(None, 11).is_none());
    assert_eq!(Node::find_node(Some(&**root), 15).unwrap().value, 15);
}

#[test]
fn push_node_fills_an_empty_slot() {
    let mut slot = None;
    Bst::push_node(Box::new(Node::leaf(1)), &mut slot);
    assert_eq!(slot.as_ref().unwrap().value, 1);
    Bst::push_node(Box::new(Node::leaf(1)), &mut slot);
    assert_eq!(slot.as_ref().unwrap().left.as_ref().unwrap().value, 1);
    assert!(slot.as_ref().unwrap().right.is_none());
}

#[test]
fn node_walk_shows_left_then_self_then_right() {
    let mut slot = Some(Box::new(Node::leaf("m")));
    for value in ["c", "x", "a", "e"] {
        Bst::push_node(Box::new(Node::leaf(value)), &mut slot);
    }
    let seen = RefCell::new(String::new());
    let signal = slot.as_ref().unwrap().traverse(&|value: &&str| {
        seen.borrow_mut().push_str(value);
        if *value == "m" {
            ControlSignal::Stop(seen.borrow().len())
        } else {
            ControlSignal::Continue
        }
    });
    assert!(matches!(signal, ControlSignal::Stop(4)));
    assert_eq!(seen.into_inner(), "acem");
}

#[test]
fn signal_knows_whether_it_stops() {
    assert!(!ControlSignal::<i32>::Continue.is_stop());
    assert!(ControlSignal::Stop(1).is_stop());
    assert!(matches!(ControlSignal::<i32>::default(), ControlSignal::Continue));
}

#[test]
fn clone_copies_shape_and_values() {
    let mut tree = Bst::from_value(3);
    for value in [5, 4, 1, 3] {
        tree.insert(value);
    }
    let mut copy = tree.clone();
    assert_eq!(copy, tree);
    assert!(!std::ptr::eq(copy.root().unwrap(), tree.root().unwrap()));
    copy.insert(2);
    assert_eq!(walk_of(&copy), vec![1, 2, 3, 3, 4, 5]);
    assert_eq!(walk_of(&tree), vec![1, 3, 3, 4, 5]);
    assert_ne!(copy, tree);
}

#[test]
fn clone_of_a_node_takes_what_hangs_below_it() {
    let mut tree = Bst::from_value(3);
    tree.insert(5);
    tree.insert(4);
    let five = tree.find(5).unwrap().clone();
    assert_eq!(five.value, 5);
    assert_eq!(five.left.as_ref().unwrap().value, 4);
    assert!(five.right.is_none());
    assert_eq!(&five, tree.find(5).unwrap());
    assert_eq!(Bst::<i32>::new().clone(), Bst::new());
}

#[test]
fn default_node_is_a_leaf_with_the_default_value() {
    let node: Node<i32> = Node::default();
    assert_eq!(node.value, 0);
    assert!(node.left.is_none());
    assert!(node.right.is_none());
}

#[test]
fn tree_of_strings_orders_and_clones_them() {
    let mut tree = Bst::from_value("m".to_string());
    for word in ["tree", "apple", "m", "zebra"] {
        tree.insert(word.to_string());
    }
    let seen = RefCell::new(Vec::new());
    tree.traverse(|word: &String| {
        seen.borrow_mut().push(word.clone());
        ControlSignal::<()>::Continue
    });
    assert_eq!(seen.into_inner(), vec!["apple", "m", "m", "tree", "zebra"]);
    assert_eq!(tree.find("tree".to_string()).unwrap().right.as_ref().unwrap().value, "zebra");
    assert!(tree.find("pear".to_string()).is_none());
    assert_eq!(tree.clone(), tree);
}

#[test]
fn long_ascending_run_is_still_in_order() {
    let mut tree = Bst::new();
    for value in 0..500 {
        tree.insert(value);
    }
    assert_eq!(depth(tree.root()), 500);
    assert_eq!(walk_of(&tree), (0..500).collect::<Vec<i32>>());
    assert_eq!(tree.find(499).unwrap().value, 499);
    assert!(tree.find(500).is_none());
}

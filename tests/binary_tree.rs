use binarytree::BinaryTree;

fn drain(tree: BinaryTree<i32>) -> Vec<i32> {
    let mut out = Vec::new();
    let mut it = tree.into_iter();
    while let Some(value) = it.next() {
        out.push(value);
    }
    out
}

fn borrowed(tree: &mut BinaryTree<i32>) -> Vec<i32> {
    let mut out = Vec::new();
    let mut it = tree.iter();
    while let Some(value) = it.next() {
        out.push(*value);
    }
    out
}

fn build(values: &[i32]) -> BinaryTree<i32> {
    let mut tree = BinaryTree::new();
    for v in values {
        tree.push(*v);
    }
    tree
}

#[test]
fn binary_tree_test() {
    let mut binary_tree: BinaryTree<i32> = BinaryTree::new();
    binary_tree.push(100);
    binary_tree.push(150);
    binary_tree.push(120);
    binary_tree.push(130);
    binary_tree.push(125);
    binary_tree.push(175);
    binary_tree.push(50);
    binary_tree.push(25);

    binary_tree.delete(&100);

    let mut it = binary_tree.into_iter();
    while let Some(value) = it.next() {
        println!("{}", value);
    }
}

#[test]
fn delete_with_two_children_keeps_the_rest_in_order() {
    let mut tree = build(&[100, 150, 120, 130, 125, 175, 50, 25]);
    tree.delete(&100);
    assert!(!tree.has_value(&100));
    assert_eq!(drain(tree), vec![25, 50, 120, 125, 130, 150, 175]);
}

#[test]
fn delete_inner_node_with_two_children() {
    let mut tree = build(&[100, 150, 120, 130, 125, 175, 50, 25]);
    tree.delete(&150);
    assert_eq!(drain(tree), vec![25, 50, 100, 120, 125, 130, 175]);
}

#[test]
fn delete_with_only_a_left_child_splices_it_in() {
    let mut tree = build(&[50, 25]);
    tree.delete(&50);
    assert!(!tree.has_value(&50));
    assert!(tree.has_value(&25));
    assert_eq!(drain(tree), vec![25]);
}

#[test]
fn delete_with_only_a_right_child_splices_it_in() {
    let mut tree = build(&[50, 75, 60, 80]);
    tree.delete(&50);
    assert_eq!(drain(tree), vec![60, 75, 80]);
}

#[test]
fn delete_a_leaf() {
    let mut tree = build(&[50, 25, 75]);
    tree.delete(&75);
    assert_eq!(drain(tree), vec![25, 50]);
}

#[test]
fn empty_tree_edge_cases() {
    let mut tree: BinaryTree<i32> = BinaryTree::new();
    assert!(!tree.has_value(&0));
    assert!(!tree.has_value(&i32::MIN));
    assert!(!tree.has_value(&i32::MAX));
    tree.delete(&7);
    assert!(!tree.has_value(&7));
    assert!(borrowed(&mut tree).is_empty());
    assert!(drain(tree).is_empty());
}

#[test]
fn pushing_twice_is_pushing_once() {
    let mut once = build(&[10, 5, 20]);
    let mut twice = build(&[10, 5, 20]);
    once.push(7);
    twice.push(7);
    twice.push(7);
    assert_eq!(borrowed(&mut once), borrowed(&mut twice));
    assert_eq!(drain(twice), vec![5, 7, 10, 20]);
}

#[test]
fn deleting_twice_is_deleting_once() {
    let mut once = build(&[10, 5, 20, 15]);
    let mut twice = build(&[10, 5, 20, 15]);
    once.delete(&10);
    twice.delete(&10);
    twice.delete(&10);
    assert_eq!(borrowed(&mut once), borrowed(&mut twice));
    assert_eq!(drain(twice), vec![5, 15, 20]);
}

#[test]
fn membership_follows_pushes_and_deletes() {
    let mut tree = BinaryTree::new();
    tree.push(3);
    tree.push(1);
    tree.push(4);
    tree.delete(&1);
    tree.push(5);
    tree.delete(&9);
    tree.delete(&3);
    tree.push(3);
    assert!(tree.has_value(&3));
    assert!(!tree.has_value(&1));
    assert!(tree.has_value(&4));
    assert!(tree.has_value(&5));
    assert!(!tree.has_value(&9));
}

#[test]
fn consuming_traversal_round_trip() {
    let values = [42, 7, 99, -3, 15, 0, 63, 8, -40, 100];
    let tree = build(&values);
    let mut expected = values.to_vec();
    expected.sort();
    assert_eq!(drain(tree), expected);
}

#[test]
fn borrowing_traversal_leaves_the_tree_usable() {
    let mut tree = build(&[4, 2, 6, 1, 3]);
    {
        let mut it = tree.iter();
        assert_eq!(it.next(), Some(&1));
        assert_eq!(it.next(), Some(&2));
    }
    assert_eq!(borrowed(&mut tree), vec![1, 2, 3, 4, 6]);
    assert!(tree.has_value(&6));
    tree.push(5);
    assert_eq!(borrowed(&mut tree), vec![1, 2, 3, 4, 5, 6]);
}

#[test]
fn traversal_is_exhausted_after_the_last_value() {
    let tree = build(&[2, 1]);
    let mut it = tree.into_iter();
    assert_eq!(it.next(), Some(1));
    assert_eq!(it.next(), Some(2));
    assert_eq!(it.next(), None);
    assert_eq!(it.next(), None);
}

#[test]
fn degenerate_ascending_input() {
    let values: Vec<i32> = (0..200).collect();
    let mut tree = build(&values);
    for v in (0..200).step_by(2) {
        tree.delete(&v);
    }
    let odd: Vec<i32> = (0..200).filter(|v| v % 2 == 1).collect();
    assert_eq!(drain(tree), odd);
}

#[test]
fn locate_finds_the_occupied_slot_or_the_empty_one() {
    let mut tree = build(&[10, 5, 15]);
    assert!(tree.locate(&5).is_some());
    assert!(tree.locate(&15).is_some());
    assert!(tree.locate(&12).is_none());
    assert!(tree.locate_mut(&10).is_some());
    assert!(tree.locate_mut(&7).is_none());
    assert_eq!(borrowed(&mut tree), vec![5, 10, 15]);
}

use avl_tree::avl::AVLTree;
use avl_tree::binary::{link_left, link_right, BinaryNode, NodeArena};
use avl_tree::search::SearchTree;

#[test]
fn binary_node() {
    let mut arena = NodeArena::new();
    let a = arena.insert(BinaryNode::new(String::from("28"), "Tony"));
    let b = arena.insert(BinaryNode::new(String::from("20"), "Guo"));
    let c = arena.insert(BinaryNode::new(String::from("19"), "Guo Tony"));

    link_left(&mut arena, a, Some(b));
    link_right(&mut arena, a, Some(c));

    let ref_a = arena.node(a);
    let ref_b = arena.node(b);
    let ref_c = arena.node(c);

    assert_eq!(0, ref_a.depth(&arena));
    assert_eq!(1, ref_a.height(&arena));
    assert_eq!(1, ref_b.depth(&arena));
    assert_eq!(0, ref_b.height(&arena));
    assert_eq!(1, ref_c.depth(&arena));
    assert_eq!(0, ref_c.height(&arena));

    assert_eq!(0, ref_a.left_height(&arena));
    assert_eq!(0, ref_a.right_height(&arena));
    assert_eq!(-1, ref_b.left_height(&arena));
    assert_eq!(-1, ref_b.right_height(&arena));
    assert_eq!(-1, ref_c.left_height(&arena));
    assert_eq!(-1, ref_c.right_height(&arena));
}

#[test]
fn link_test() {
    let mut arena = NodeArena::new();
    let a = arena.insert(BinaryNode::new(String::from("28"), "Tony"));
    let b = arena.insert(BinaryNode::new(String::from("20"), "Guo"));
    let c = arena.insert(BinaryNode::new(String::from("19"), "Guo Tony"));

    link_right(&mut arena, a, Some(b));
    assert_eq!(1, arena.strong_count(a));
    assert_eq!(1, arena.weak_count(a));
    assert_eq!(2, arena.strong_count(b));
    assert_eq!(0, arena.weak_count(b));
    assert_eq!(1, arena.strong_count(c));
    assert_eq!(0, arena.weak_count(c));
    link_left(&mut arena, a, Some(c));
    assert_eq!(1, arena.strong_count(a));
    assert_eq!(2, arena.weak_count(a));
    assert_eq!(2, arena.strong_count(b));
    assert_eq!(0, arena.weak_count(b));
    assert_eq!(2, arena.strong_count(c));
    assert_eq!(0, arena.weak_count(c));
    link_right(&mut arena, a, None);
    assert_eq!(1, arena.strong_count(a));
    assert_eq!(1, arena.weak_count(a));
    assert_eq!(1, arena.strong_count(b));
    assert_eq!(0, arena.weak_count(b));
    assert_eq!(2, arena.strong_count(c));
    assert_eq!(0, arena.weak_count(c));
    link_right(&mut arena, a, None);
    assert_eq!(1, arena.strong_count(a));
    assert_eq!(1, arena.weak_count(a));
    assert_eq!(1, arena.strong_count(b));
    assert_eq!(0, arena.weak_count(b));
    assert_eq!(2, arena.strong_count(c));
    assert_eq!(0, arena.weak_count(c));
    link_left(&mut arena, a, None);
    assert_eq!(1, arena.strong_count(a));
    assert_eq!(0, arena.weak_count(a));
    assert_eq!(1, arena.strong_count(b));
    assert_eq!(0, arena.weak_count(b));
    assert_eq!(1, arena.strong_count(c));
    assert_eq!(0, arena.weak_count(c));
}

#[test]
fn create_avl_tree() {
    let mut names = vec![
        "2234", "1234", "9953", "3012", "7777", "6161", "4532", "6418", "9090", "8011", "5234",
        "4444",
    ];
    let mut idx = 0;
    let mut tree = AVLTree::<String>::new();

    while names.len() > 0 {
        tree.add(idx.to_string(), String::from(names.pop().unwrap()));
        idx += 1;
    }

    assert_eq!(3, tree.height());
    assert_eq!("4444", tree.min_val_clone().unwrap());
    assert_eq!("9953", tree.max_val_clone().unwrap());
}

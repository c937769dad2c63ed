use avl_tree::avl::AVLTree;
use avl_tree::binary::{is_left_child, link_left, take_from_top, BinaryNode, NodeArena};
use avl_tree::key::{compare_keys, goes_left};
use avl_tree::mem_st::lifetime_show;
use avl_tree::search::SearchTree;

fn build(keys: &[&str]) -> AVLTree<String> {
    let mut tree = AVLTree::new();
    for k in keys {
        tree.add(String::from(*k), format!("v{}", k));
    }
    tree
}

fn key_of(tree: &AVLTree<String>, i: Option<usize>) -> Option<String> {
    i.map(|i| tree.arena().node(i).key.clone())
}

fn shape(tree: &AVLTree<String>) -> (String, Option<String>, Option<String>) {
    let r = tree.root().unwrap();
    let n = tree.arena().node(r);
    (n.key.clone(), key_of(tree, n.left), key_of(tree, n.right))
}

fn subtree_height(tree: &AVLTree<String>, i: Option<usize>) -> i32 {
    match i {
        None => -1,
        Some(i) => {
            let n = tree.arena().node(i);
            1 + subtree_height(tree, n.left).max(subtree_height(tree, n.right))
        }
    }
}

fn check_tree(tree: &AVLTree<String>) {
    let arena = tree.arena();
    let mut seen = 0;
    let mut stack = Vec::new();
    if let Some(r) = tree.root() {
        assert!(arena.node(r).top.is_none());
        stack.push((r, None::<String>, None::<String>));
    }
    while let Some((i, lo, hi)) = stack.pop() {
        seen += 1;
        let n = arena.node(i);
        if let Some(lo) = &lo {
            assert!(n.key > *lo);
        }
        if let Some(hi) = &hi {
            assert!(n.key <= *hi);
        }
        let bf = subtree_height(tree, n.left) - subtree_height(tree, n.right);
        assert!((-1..=1).contains(&bf));
        if let Some(c) = n.left {
            assert_eq!(arena.node(c).top, Some(i));
            stack.push((c, lo.clone(), Some(n.key.clone())));
        }
        if let Some(c) = n.right {
            assert_eq!(arena.node(c).top, Some(i));
            stack.push((c, Some(n.key.clone()), hi.clone()));
        }
    }
    assert_eq!(seen, tree.len());
}

fn expect_20_10_30(tree: &AVLTree<String>) {
    assert_eq!(
        shape(tree),
        (String::from("20"), Some(String::from("10")), Some(String::from("30")))
    );
    assert_eq!(1, tree.height());
    check_tree(tree);
}

#[test]
fn ascending_single_left() {
    expect_20_10_30(&build(&["10", "20", "30"]));
}

#[test]
fn descending_single_right() {
    expect_20_10_30(&build(&["30", "20", "10"]));
}

#[test]
fn left_right_double_right() {
    expect_20_10_30(&build(&["30", "10", "20"]));
}

#[test]
fn right_left_double_left() {
    expect_20_10_30(&build(&["10", "30", "20"]));
}

#[test]
fn twelve_keys_stay_shallow() {
    let keys = ["m", "c", "x", "a", "q", "f", "k", "t", "b", "z", "h", "e"];
    let tree = build(&keys);
    assert!(tree.height() <= 6);
    check_tree(&tree);
    assert_eq!("va", tree.min_val_clone().unwrap());
    assert_eq!("vz", tree.max_val_clone().unwrap());
    assert_eq!("va", tree.min_val().unwrap());
    assert_eq!("vz", tree.max_val().unwrap());
}

#[test]
fn ascending_run_is_balanced() {
    let keys: Vec<String> = (0..40).map(|i| format!("{:03}", i)).collect();
    let refs: Vec<&str> = keys.iter().map(|s| s.as_str()).collect();
    let tree = build(&refs);
    check_tree(&tree);
    assert_eq!(5, tree.height());
}

#[test]
fn rotation_below_a_left_child_keeps_sibling() {
    let tree = build(&["50", "30", "70", "80", "20", "25"]);
    check_tree(&tree);
    assert_eq!(6, tree.len());
    for k in ["50", "30", "70", "80", "20", "25"] {
        assert_eq!(Some(format!("v{}", k)), tree.find_and_clone(&String::from(k)));
    }
}

#[test]
fn update_missing_key_is_not_found() {
    let mut tree = build(&["10", "20", "30"]);
    let before = shape(&tree);
    let r = tree.update(&String::from("99"), String::from("x"));
    assert_eq!(Err(String::from("node=99 not exists")), r);
    assert_eq!(before, shape(&tree));
    assert_eq!(Some(String::from("v20")), tree.find_and_clone(&String::from("20")));
}

#[test]
fn update_then_find_round_trip() {
    let mut tree = build(&["10", "20", "30", "40"]);
    assert_eq!(Ok(()), tree.update(&String::from("30"), String::from("new")));
    assert_eq!(Some(&String::from("new")), tree.find(&String::from("30")));
    assert_eq!(None, tree.find(&String::from("35")));
    assert_eq!(None, tree.find_and_clone(&String::from("")));
    check_tree(&tree);
}

#[test]
fn equal_key_goes_left() {
    let tree = build(&["5", "5"]);
    let r = tree.root().unwrap();
    let root = tree.arena().node(r);
    assert_eq!(root.right, None);
    let l = root.left.unwrap();
    assert_eq!("5", tree.arena().node(l).key);
    assert_eq!(Some(r), tree.find_node(&String::from("5")));
    assert!(goes_left(&String::from("5"), &String::from("5")));
    assert!(goes_left(&String::from("6"), &String::from("5")));
    assert!(!goes_left(&String::from("4"), &String::from("5")));
}

#[test]
fn height_convention() {
    let mut tree = AVLTree::<String>::new();
    assert_eq!(-1, tree.height());
    assert_eq!(-1, SearchTree::depth(&tree));
    tree.add(String::from("a"), String::from("x"));
    assert_eq!(0, tree.height());
    assert_eq!(0, SearchTree::height(&tree));
}

#[test]
fn rebalancing_a_balanced_tree_changes_nothing() {
    let mut tree = build(&["d", "b", "f", "a", "c", "e", "g"]);
    let before = shape(&tree);
    let links: Vec<_> = (0..tree.len())
        .map(|i| {
            let n = tree.arena().node(i);
            (n.top, n.left, n.right)
        })
        .collect();
    for i in 0..tree.len() {
        tree.rebalance(i);
    }
    let after: Vec<_> = (0..tree.len())
        .map(|i| {
            let n = tree.arena().node(i);
            (n.top, n.left, n.right)
        })
        .collect();
    assert_eq!(links, after);
    assert_eq!(before, shape(&tree));
}

#[test]
fn key_order_is_bytewise() {
    assert_eq!(-1, compare_keys(&String::from("10"), &String::from("9")));
    assert_eq!(1, compare_keys(&String::from("b"), &String::from("ab")));
    assert_eq!(0, compare_keys(&String::from("é"), &String::from("é")));
    assert_eq!(-1, compare_keys(&String::from("ab"), &String::from("abc")));
    assert_eq!(1, compare_keys(&String::from("é"), &String::from("z")));
}

#[test]
fn take_from_top_cuts_the_right_slot() {
    let mut arena = NodeArena::new();
    let a = arena.insert(BinaryNode::new(String::from("m"), 1));
    let b = arena.insert(BinaryNode::new(String::from("c"), 2));
    let c = arena.insert(BinaryNode::new(String::from("x"), 3));
    link_left(&mut arena, a, Some(b));
    assert!(is_left_child(&arena, a, b));
    assert!(!is_left_child(&arena, a, c));
    avl_tree::binary::link_right(&mut arena, a, Some(c));
    assert_eq!(Some(a), take_from_top(&mut arena, c));
    assert_eq!(None, arena.node(c).top);
    assert_eq!(None, arena.node(a).right);
    assert_eq!(Some(b), arena.node(a).left);
    assert_eq!(None, take_from_top(&mut arena, a));
    assert_eq!(2, arena.node(b).depth(&arena) + arena.node(a).height(&arena));
}

#[test]
fn longer_string_is_chosen() {
    let a = String::from("tony");
    let b = String::from("gzj");
    assert_eq!("tony", lifetime_show(&a, &b));
    let c = String::from("abc");
    assert_eq!("abc", lifetime_show(&b, &c));
}

#[test]
fn duplicate_keys_can_rotate_to_the_right() {
    let tree = build(&["5", "5", "5"]);
    let r = tree.root().unwrap();
    let root = tree.arena().node(r);
    assert_eq!("5", root.key);
    assert_eq!(Some(String::from("5")), key_of(&tree, root.left));
    assert_eq!(Some(String::from("5")), key_of(&tree, root.right));
    assert_eq!(1, tree.height());
    assert_eq!(Some(r), tree.find_node(&String::from("5")));
}

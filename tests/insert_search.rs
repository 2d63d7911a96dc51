use avl_tree::{AVLTree, Node};

fn keys_in_order(t: &Option<Box<Node>>, out: &mut Vec<i32>) {
    if let Some(n) = t {
        keys_in_order(&n.left, out);
        out.push(n.key);
        keys_in_order(&n.right, out);
    }
}

fn stored(t: &Option<Box<Node>>) -> i32 {
    match t {
        Some(n) => n.height,
        None => 0,
    }
}

/// Checks heights and balance at every node and returns the subtree's height.
fn check_avl(t: &Option<Box<Node>>) -> i32 {
    match t {
        Some(n) => {
            let hl = check_avl(&n.left);
            let hr = check_avl(&n.right);
            assert_eq!(n.height, 1 + hl.max(hr));
            assert!((hl - hr).abs() <= 1);
            n.height
        }
        None => 0,
    }
}

fn build(keys: &[i32]) -> AVLTree {
    let mut tree = AVLTree::new();
    for &k in keys {
        tree.insert_key(k);
    }
    tree
}

fn root_key(tree: &AVLTree) -> i32 {
    tree.root().as_ref().unwrap().key
}

fn scrambled(n: i32) -> Vec<i32> {
    (0..n).map(|i| (i * 7919) % 1009 - 500).collect()
}

#[test]
fn three_ascending_keys_rotate_left() {
    let tree = build(&[10, 20, 30]);
    let root = tree.root().as_ref().unwrap();
    assert_eq!(root.key, 20);
    assert_eq!(root.height, 2);
    let left = root.left.as_ref().unwrap();
    let right = root.right.as_ref().unwrap();
    assert_eq!((left.key, left.height), (10, 1));
    assert_eq!((right.key, right.height), (30, 1));
    assert!(left.left.is_none() && left.right.is_none());
    assert!(right.left.is_none() && right.right.is_none());
    assert!(tree.search_key(20));
    assert!(!tree.search_key(99));
}

#[test]
fn three_descending_keys_rotate_right() {
    let tree = build(&[30, 20, 10]);
    assert_eq!(root_key(&tree), 20);
    let mut v = Vec::new();
    keys_in_order(tree.root(), &mut v);
    assert_eq!(v, vec![10, 20, 30]);
    assert_eq!(check_avl(tree.root()), 2);
}

#[test]
fn left_right_case_double_rotation() {
    let tree = build(&[30, 10, 20]);
    let root = tree.root().as_ref().unwrap();
    assert_eq!(root.key, 20);
    assert_eq!(root.left.as_ref().unwrap().key, 10);
    assert_eq!(root.right.as_ref().unwrap().key, 30);
    assert_eq!(root.height, 2);
}

#[test]
fn right_left_case_double_rotation() {
    let tree = build(&[10, 30, 20]);
    let root = tree.root().as_ref().unwrap();
    assert_eq!(root.key, 20);
    assert_eq!(root.left.as_ref().unwrap().key, 10);
    assert_eq!(root.right.as_ref().unwrap().key, 30);
    assert_eq!(root.height, 2);
}

#[test]
fn empty_tree_finds_nothing() {
    let tree = AVLTree::new();
    assert!(tree.root().is_none());
    assert!(!tree.search_key(0));
    assert!(!tree.search_key(i32::MIN));
}

#[test]
fn inorder_is_strictly_increasing() {
    let keys = scrambled(300);
    let tree = build(&keys);
    let mut v = Vec::new();
    keys_in_order(tree.root(), &mut v);
    assert!(v.windows(2).all(|w| w[0] < w[1]));
    let mut expected = keys.clone();
    expected.sort();
    expected.dedup();
    assert_eq!(v, expected);
}

#[test]
fn every_node_balanced_with_correct_height() {
    for n in [1, 2, 5, 17, 100, 257] {
        let asc: Vec<i32> = (0..n).collect();
        let desc: Vec<i32> = (0..n).rev().collect();
        check_avl(build(&asc).root());
        check_avl(build(&desc).root());
        check_avl(build(&scrambled(n)).root());
    }
}

#[test]
fn search_finds_exactly_inserted_keys() {
    let keys = [50, -3, 17, 8, 99, 42, 0, -70];
    let tree = build(&keys);
    for k in keys {
        assert!(tree.search_key(k));
    }
    for k in [1, -2, 100, 43, -71, 16, i32::MAX, i32::MIN] {
        assert!(!tree.search_key(k));
    }
}

#[test]
fn inserting_twice_equals_inserting_once() {
    let once = build(&[5, 3, 8, 1, 4, 7]);
    let twice = build(&[5, 3, 8, 1, 4, 7, 7]);
    assert_eq!(once.root(), twice.root());
    let mut again = build(&[5, 3, 8]);
    again.insert_key(3);
    again.insert_key(3);
    assert_eq!(again.root(), build(&[5, 3, 8]).root());
}

#[test]
fn height_within_logarithmic_bound() {
    for n in [1, 2, 3, 10, 100, 1000, 4000] {
        let tree = build(&(0..n).collect::<Vec<i32>>());
        let h = check_avl(tree.root()) as f64;
        assert!(h <= 1.45 * ((n + 2) as f64).log2());
    }
    let tree = build(&(0..1000).collect::<Vec<i32>>());
    assert_eq!(stored(tree.root()), 10);
}

#[test]
fn extreme_keys() {
    let tree = build(&[i32::MAX, i32::MIN, 0, i32::MAX - 1, i32::MIN + 1]);
    for k in [i32::MAX, i32::MIN, 0, i32::MAX - 1, i32::MIN + 1] {
        assert!(tree.search_key(k));
    }
    assert!(!tree.search_key(1));
    check_avl(tree.root());
}

#[test]
fn new_node_is_a_leaf() {
    let n = Node::new(7);
    assert_eq!(n.key, 7);
    assert_eq!(n.height, 1);
    assert!(n.left.is_none() && n.right.is_none());
}

#[test]
fn height_and_balance_of_subtrees() {
    let tree = build(&[2, 1, 3, 4]);
    let root = tree.root();
    assert_eq!(tree.height(&None), 0);
    assert_eq!(tree.height(root), 3);
    assert_eq!(tree.get_balance(root), -1);
    assert_eq!(tree.get_balance(&None), 0);
    let right = &root.as_ref().unwrap().right;
    assert_eq!(tree.height(right), 2);
    assert_eq!(tree.get_balance(right), -1);
}

fn chain_left() -> Box<Node> {
    // 3 <- 2 <- 1, stored heights 3, 2, 1
    let mut a = Node::new(1);
    a.height = 1;
    let mut b = Node::new(2);
    b.left = Some(Box::new(a));
    b.height = 2;
    let mut c = Node::new(3);
    c.left = Some(Box::new(b));
    c.height = 3;
    Box::new(c)
}

#[test]
fn rotate_right_lifts_left_child() {
    let mut tree = AVLTree::new();
    let r = tree.rotate_right(chain_left());
    assert_eq!((r.key, r.height), (2, 2));
    let l = r.left.as_ref().unwrap();
    let rt = r.right.as_ref().unwrap();
    assert_eq!((l.key, l.height), (1, 1));
    assert_eq!((rt.key, rt.height), (3, 1));
    assert!(rt.left.is_none());
}

#[test]
fn rotate_left_lifts_right_child() {
    let mut c = Node::new(3);
    c.height = 1;
    let mut b = Node::new(2);
    b.right = Some(Box::new(c));
    b.height = 2;
    let mut a = Node::new(1);
    a.right = Some(Box::new(b));
    a.height = 3;
    let mut tree = AVLTree::new();
    let r = tree.rotate_left(Box::new(a));
    assert_eq!((r.key, r.height), (2, 2));
    assert_eq!(r.left.as_ref().unwrap().key, 1);
    assert_eq!(r.left.as_ref().unwrap().height, 1);
    assert_eq!(r.right.as_ref().unwrap().key, 3);
}

#[test]
fn subtree_insert_and_search() {
    let mut tree = AVLTree::new();
    let mut sub = None;
    for k in [10, 20, 30, 40, 50] {
        sub = tree.insert(sub, k);
    }
    let root = sub.as_ref().unwrap();
    assert_eq!(root.key, 20);
    assert_eq!(root.height, 3);
    assert_eq!(root.right.as_ref().unwrap().key, 40);
    assert!(tree.search(&sub, 50));
    assert!(!tree.search(&sub, 45));
    assert!(!tree.search(&None, 10));
    let single = tree.insert(None, 7);
    let again = tree.insert(single, 7);
    assert_eq!(again, Some(Box::new(Node::new(7))));
    let mut before = Vec::new();
    keys_in_order(&sub, &mut before);
    let same = tree.insert(sub, 30);
    let mut after = Vec::new();
    keys_in_order(&same, &mut after);
    assert_eq!(before, after);
    assert_eq!(same.as_ref().unwrap().key, 20);
    assert!(tree.root().is_none());
}

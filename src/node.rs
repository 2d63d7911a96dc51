//! Tree nodes and the mathematical model of a subtree.
use vstd::prelude::*;

verus! {

/// One entry of the tree: a key, the cached height of the subtree rooted here, and two
/// exclusively owned children.
#[derive(Debug, PartialEq, Eq)]
pub struct Node {
    pub key: i32,
    pub height: i32,
    pub left: Option<Box<Node>>,
    pub right: Option<Box<Node>>,
}

/// The single-node subtree holding `key`.
pub open spec fn leaf(key: i32) -> Node {
    Node { key, height: 1, left: None, right: None }
}

impl Node {
    /// A fresh node with no children and height 1.
    pub fn new(key: i32) -> (n: Node)
        ensures
            n == leaf(key),
    {
        Node { key, height: 1, left: None, right: None }
    }
}

/// The stored height of a subtree, 0 for an absent one.
pub open spec fn height_of(t: Option<Box<Node>>) -> int {
    match t {
        Some(n) => n.height as int,
        None => 0,
    }
}

/// Left height minus right height of a present subtree, 0 for an absent one.
pub open spec fn balance_of(t: Option<Box<Node>>) -> int {
    match t {
        Some(n) => height_of(n.left) - height_of(n.right),
        None => 0,
    }
}

/// The keys of a subtree, read left to right.
pub open spec fn inorder(t: Option<Box<Node>>) -> Seq<i32>
    decreases t,
{
    match t {
        Some(n) => inorder(n.left) + seq![n.key] + inorder(n.right),
        None => Seq::empty(),
    }
}

/// The set of keys held by a subtree.
pub open spec fn keys_of(t: Option<Box<Node>>) -> Set<i32>
    decreases t,
{
    match t {
        Some(n) => keys_of(n.left).union(keys_of(n.right)).insert(n.key),
        None => Set::empty(),
    }
}

/// The number of nodes of a subtree.
pub open spec fn size_of(t: Option<Box<Node>>) -> nat
    decreases t,
{
    match t {
        Some(n) => 1 + size_of(n.left) + size_of(n.right),
        None => 0,
    }
}

/// Every key left of a node is smaller than the node's key, every key right of it larger.
pub open spec fn is_bst(t: Option<Box<Node>>) -> bool
    decreases t,
{
    match t {
        Some(n) => {
            &&& forall|k: i32| keys_of(n.left).contains(k) ==> k < n.key
            &&& forall|k: i32| keys_of(n.right).contains(k) ==> n.key < k
            &&& is_bst(n.left)
            &&& is_bst(n.right)
        },
        None => true,
    }
}

/// Every stored height is one more than the larger stored height of the children.
pub open spec fn heights_ok(t: Option<Box<Node>>) -> bool
    decreases t,
{
    match t {
        Some(n) => {
            &&& n.height as int == 1 + max_int(height_of(n.left), height_of(n.right))
            &&& heights_ok(n.left)
            &&& heights_ok(n.right)
        },
        None => true,
    }
}

/// At every node the heights of the two children differ by at most one.
pub open spec fn is_balanced(t: Option<Box<Node>>) -> bool
    decreases t,
{
    match t {
        Some(n) => {
            &&& -1 <= height_of(n.left) - height_of(n.right) <= 1
            &&& is_balanced(n.left)
            &&& is_balanced(n.right)
        },
        None => true,
    }
}

/// The invariants of an AVL tree: search order, correct heights and balance.
pub open spec fn is_avl(t: Option<Box<Node>>) -> bool {
    is_bst(t) && heights_ok(t) && is_balanced(t)
}

pub open spec fn max_int(a: int, b: int) -> int {
    if a >= b {
        a
    } else {
        b
    }
}

/// `n` with its height recomputed from its children's stored heights.
pub open spec fn with_height(n: Node) -> Node {
    Node { height: (1 + max_int(height_of(n.left), height_of(n.right))) as i32, ..n }
}

/// Right rotation of `y` around its left child `x`: `x` becomes the root and takes `y` as its
/// right child, and `y` takes `x`'s former right subtree as its left child.
pub open spec fn rotated_right(y: Node) -> Node {
    let x = *y.left.unwrap();
    let y2 = with_height(Node { left: x.right, ..y });
    with_height(Node { right: Some(Box::new(y2)), ..x })
}

/// Left rotation of `x` around its right child `y`, the mirror of `rotated_right`.
pub open spec fn rotated_left(x: Node) -> Node {
    let y = *x.right.unwrap();
    let x2 = with_height(Node { right: y.left, ..x });
    with_height(Node { left: Some(Box::new(x2)), ..y })
}

/// The AVL repair of a node whose subtree just received `key`: one of the four rotation cases
/// where the node is out of balance, else the node unchanged.
pub open spec fn rebalanced(n: Node, key: i32) -> Node {
    let b = height_of(n.left) - height_of(n.right);
    if b > 1 && key < n.left.unwrap().key {
        rotated_right(n)
    } else if b < -1 && key > n.right.unwrap().key {
        rotated_left(n)
    } else if b > 1 && key > n.left.unwrap().key {
        rotated_right(Node { left: Some(Box::new(rotated_left(*n.left.unwrap()))), ..n })
    } else if b < -1 && key < n.right.unwrap().key {
        rotated_left(Node { right: Some(Box::new(rotated_right(*n.right.unwrap()))), ..n })
    } else {
        n
    }
}

/// The subtree that results from inserting `key` into `t`.
pub open spec fn inserted(t: Option<Box<Node>>, key: i32) -> Option<Box<Node>>
    decreases t,
{
    match t {
        None => Some(Box::new(leaf(key))),
        Some(n) => {
            if key < n.key {
                Some(Box::new(rebalanced(with_height(Node { left: inserted(n.left, key), ..*n }), key)))
            } else if key > n.key {
                Some(Box::new(rebalanced(with_height(Node { right: inserted(n.right, key), ..*n }), key)))
            } else {
                t
            }
        },
    }
}

/// What insertion promises of a subtree that it made one higher: it is a single node, or its
/// root leans toward the side that received `key`.
pub open spec fn leans_toward(r: Option<Box<Node>>, key: i32) -> bool {
    height_of(r) >= 2 ==> {
        ||| balance_of(r) == 1 && key < r.unwrap().key
        ||| balance_of(r) == -1 && r.unwrap().key < key
    }
}

/// The tree built by inserting `keys` one after the other into an empty tree.
pub open spec fn built_from(keys: Seq<i32>) -> Option<Box<Node>>
    decreases keys.len(),
{
    if keys.len() == 0 {
        None
    } else {
        inserted(built_from(keys.drop_last()), keys.last())
    }
}

} // verus!

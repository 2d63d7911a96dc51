//! The AVL tree: recursive insertion with rotations, and search.
use vstd::prelude::*;

use crate::height_bound::lemma_height_fits;
use crate::node::{
    balance_of, height_of, heights_ok, inserted, is_avl, leans_toward, rebalanced, is_bst, keys_of, max_int, rotated_left, rotated_right,
    with_height, Node,
};
use crate::proofs::{lemma_height_nonneg, lemma_inserted};

verus! {

/// A self-balancing binary search tree of distinct `i32` keys.
pub struct AVLTree {
    root: Option<Box<Node>>,
}

impl View for AVLTree {
    type V = Option<Box<Node>>;

    /// The root subtree.
    closed spec fn view(&self) -> Option<Box<Node>> {
        self.root
    }
}

impl AVLTree {
    #[verifier::type_invariant]
    spec fn inv(self) -> bool {
        is_avl(self.root)
    }

    /// An empty tree.
    pub fn new() -> (t: AVLTree)
        ensures
            t@ == None::<Box<Node>>,
    {
        AVLTree { root: None }
    }

    /// The root subtree, for reading the tree's shape.
    pub fn root(&self) -> (r: &Option<Box<Node>>)
        ensures
            *r == self@,
            is_avl(*r),
    {
        proof {
            use_type_invariant(self);
        }
        &self.root
    }

    /// The stored height of `node`, 0 when absent.
    pub fn height(&self, node: &Option<Box<Node>>) -> (h: i32)
        ensures
            h as int == height_of(*node),
    {
        match node {
            Some(n) => n.height,
            None => 0,
        }
    }

    /// Height of the left child minus height of the right child, 0 for an absent node.
    pub fn get_balance(&self, node: &Option<Box<Node>>) -> (b: i32)
        requires
            node is Some ==> height_of(node.unwrap().left) >= 0 && height_of(node.unwrap().right)
                >= 0,
        ensures
            b as int == balance_of(*node),
    {
        match node {
            Some(n) => self.height(&n.left) - self.height(&n.right),
            None => 0,
        }
    }

    /// One more than the larger stored height of `n`'s children.
    fn fitted_height(&self, n: &Node) -> (h: i32)
        requires
            height_of(n.left) < i32::MAX,
            height_of(n.right) < i32::MAX,
        ensures
            h == with_height(*n).height,
            h as int == 1 + max_int(height_of(n.left), height_of(n.right)),
    {
        let hl = self.height(&n.left);
        let hr = self.height(&n.right);
        if hl >= hr {
            hl + 1
        } else {
            hr + 1
        }
    }

    /// Rotates `y` to the right: its left child becomes the root of the subtree, and the
    /// heights of the two moved nodes are recomputed, lower one first.
    pub fn rotate_right(&mut self, y: Box<Node>) -> (r: Box<Node>)
        requires
            y.left is Some,
            height_of(y.left.unwrap().left) < i32::MAX - 1,
            height_of(y.left.unwrap().right) < i32::MAX - 1,
            height_of(y.right) < i32::MAX - 1,
        ensures
            *r == rotated_right(*y),
            *final(self) == *old(self),
    {
        let mut y = y;
        let mut x = y.left.take().unwrap();
        y.left = x.right.take();
        y.height = self.fitted_height(&y);
        x.right = Some(y);
        x.height = self.fitted_height(&x);
        x
    }

    /// Rotates `x` to the left, the mirror of `rotate_right`.
    pub fn rotate_left(&mut self, x: Box<Node>) -> (r: Box<Node>)
        requires
            x.right is Some,
            height_of(x.right.unwrap().left) < i32::MAX - 1,
            height_of(x.right.unwrap().right) < i32::MAX - 1,
            height_of(x.left) < i32::MAX - 1,
        ensures
            *r == rotated_left(*x),
            *final(self) == *old(self),
    {
        let mut x = x;
        let mut y = x.right.take().unwrap();
        x.right = y.left.take();
        x.height = self.fitted_height(&x);
        y.left = Some(x);
        y.height = self.fitted_height(&y);
        y
    }

    /// Inserts `key` into the subtree `node` and returns the new root of that subtree: a new
    /// leaf where the key was absent, rotations on the way back up wherever a node would
    /// otherwise be out of balance, and `node` itself when it already holds the key.
    pub fn insert(&mut self, node: Option<Box<Node>>, key: i32) -> (r: Option<Box<Node>>)
        requires
            is_avl(node),
        ensures
            r == inserted(node, key),
            is_avl(r),
            keys_of(r) == keys_of(node).insert(key),
            height_of(node) <= height_of(r) <= height_of(node) + 1,
            height_of(r) == height_of(node) + 1 ==> leans_toward(r, key),
            keys_of(node).contains(key) ==> r == node,
            *final(self) == *old(self),
        decreases node,
    {
        proof {
            lemma_height_fits(node);
            lemma_inserted(node, key);
        }
        let mut node = match node {
            Some(n) => n,
            None => return Some(Box::new(Node::new(key))),
        };
        proof {
            lemma_height_nonneg(node.left);
            lemma_height_nonneg(node.right);
        }
        if key < node.key {
            let left = node.left.take();
            node.left = self.insert(left, key);
        } else if key > node.key {
            let right = node.right.take();
            node.right = self.insert(right, key);
        } else {
            return Some(node);
        }
        proof {
            lemma_height_fits(node.left);
            lemma_height_fits(node.right);
        }
        node.height = self.fitted_height(&node);
        Some(self.rebalance(node, key))
    }

    /// The AVL repair after `key` went into one child of `node`: one of the four rotation cases
    /// where the children's heights differ by two, else `node` unchanged.
    fn rebalance(&mut self, node: Box<Node>, key: i32) -> (r: Box<Node>)
        requires
            is_avl(node.left),
            is_avl(node.right),
            -2 <= height_of(node.left) - height_of(node.right) <= 2,
            height_of(node.left) - height_of(node.right) == 2 ==> leans_toward(node.left, key),
            height_of(node.right) - height_of(node.left) == 2 ==> leans_toward(node.right, key),
        ensures
            *r == rebalanced(*node, key),
            *final(self) == *old(self),
    {
        proof {
            lemma_height_fits(node.left);
            lemma_height_fits(node.right);
            lemma_height_nonneg(node.left);
            lemma_height_nonneg(node.right);
            if node.left is Some {
                let l = node.left.unwrap();
                lemma_height_nonneg(l.left);
                lemma_height_nonneg(l.right);
                assert(heights_ok(l.left) && heights_ok(l.right));
            }
            if node.right is Some {
                let r = node.right.unwrap();
                lemma_height_nonneg(r.left);
                lemma_height_nonneg(r.right);
                assert(heights_ok(r.left) && heights_ok(r.right));
            }
        }
        let wrapped = Some(node);
        let balance = self.get_balance(&wrapped);
        let mut node = wrapped.unwrap();
        if balance > 1 && key < node.left.as_ref().unwrap().key {
            return self.rotate_right(node);
        }
        if balance < -1 && key > node.right.as_ref().unwrap().key {
            return self.rotate_left(node);
        }
        if balance > 1 && key > node.left.as_ref().unwrap().key {
            let left = node.left.take().unwrap();
            node.left = Some(self.rotate_left(left));
            return self.rotate_right(node);
        }
        if balance < -1 && key < node.right.as_ref().unwrap().key {
            let right = node.right.take().unwrap();
            node.right = Some(self.rotate_right(right));
            return self.rotate_left(node);
        }
        node
    }

    /// Inserts `key` into the tree; the tree is unchanged when it already holds the key.
    pub fn insert_key(&mut self, key: i32)
        ensures
            final(self)@ == inserted(old(self)@, key),
            keys_of(final(self)@) == keys_of(old(self)@).insert(key),
            is_avl(final(self)@),
    {
        let mut tree = AVLTree::new();
        std::mem::swap(self, &mut tree);
        proof {
            use_type_invariant(&tree);
        }
        let AVLTree { root } = tree;
        let root = self.insert(root, key);
        *self = AVLTree { root };
    }

    /// Whether `key` is in the subtree `node`, by descent along the search order.
    pub fn search(&self, node: &Option<Box<Node>>, key: i32) -> (found: bool)
        requires
            is_bst(*node),
        ensures
            found == keys_of(*node).contains(key),
        decreases node,
    {
        match node {
            Some(n) => {
                if key == n.key {
                    true
                } else if key < n.key {
                    proof {
                        assert(!keys_of(n.right).contains(key));
                    }
                    self.search(&n.left, key)
                } else {
                    proof {
                        assert(!keys_of(n.left).contains(key));
                    }
                    self.search(&n.right, key)
                }
            },
            None => false,
        }
    }

    /// Whether `key` is in the tree.
    pub fn search_key(&self, key: i32) -> (found: bool)
        ensures
            found == keys_of(self@).contains(key),
    {
        proof {
            use_type_invariant(self);
        }
        self.search(&self.root, key)
    }
}

} // verus!

//! Lemmas on the subtree model: rotations repair an imbalance of two, and insertion keeps the
//! AVL invariants.
use vstd::prelude::*;

use crate::node::{
    balance_of, leans_toward, height_of, heights_ok, inorder, inserted, is_avl, is_balanced, is_bst, keys_of, max_int,
    rebalanced, rotated_left, rotated_right, size_of, with_height, Node,
};

verus! {

/// A subtree with correct heights has a nonnegative height.
pub proof fn lemma_height_nonneg(t: Option<Box<Node>>)
    requires
        heights_ok(t),
    ensures
        height_of(t) >= 0,
    decreases t,
{
    if let Some(n) = t {
        lemma_height_nonneg(n.left);
        lemma_height_nonneg(n.right);
    }
}

/// A node whose children are AVL trees, ordered around its key, with its height correct and
/// its children's heights within one, is an AVL tree.
proof fn lemma_join(n: Node)
    requires
        is_avl(n.left),
        is_avl(n.right),
        forall|k: i32| keys_of(n.left).contains(k) ==> k < n.key,
        forall|k: i32| keys_of(n.right).contains(k) ==> n.key < k,
        n.height as int == 1 + max_int(height_of(n.left), height_of(n.right)),
        -1 <= height_of(n.left) - height_of(n.right) <= 1,
    ensures
        is_avl(Some(Box::new(n))),
        keys_of(Some(Box::new(n))) == keys_of(n.left).union(keys_of(n.right)).insert(n.key),
        height_of(Some(Box::new(n))) == n.height as int,
{
}

/// A right rotation of a node whose left child is two higher than its right child and leans
/// left yields an AVL tree one lower than the left child was, with the same keys.
pub proof fn lemma_rotate_right_repairs(m: Node)
    requires
        m.left is Some,
        is_bst(Some(Box::new(m))),
        is_avl(m.left),
        is_avl(m.right),
        height_of(m.left) == height_of(m.right) + 2,
        balance_of(m.left) == 1,
        height_of(m.left) < i32::MAX,
    ensures
        is_avl(Some(Box::new(rotated_right(m)))),
        keys_of(Some(Box::new(rotated_right(m)))) == keys_of(Some(Box::new(m))),
        height_of(Some(Box::new(rotated_right(m)))) == height_of(m.left),
{
    let p = *m.left.unwrap();
    let c = height_of(m.right);
    lemma_height_nonneg(m.right);
    assert(is_avl(p.left) && is_avl(p.right));
    assert(height_of(p.left) == c + 1 && height_of(p.right) == c);
    assert(keys_of(m.left) == keys_of(p.left).union(keys_of(p.right)).insert(p.key));
    let y2 = with_height(Node { left: p.right, ..m });
    assert forall|k: i32| keys_of(y2.left).contains(k) implies k < y2.key by {
        assert(keys_of(m.left).contains(k));
    }
    lemma_join(y2);
    let x = with_height(Node { right: Some(Box::new(y2)), ..p });
    assert(keys_of(m.left).contains(p.key));
    assert(keys_of(x.right) == keys_of(y2.left).union(keys_of(y2.right)).insert(y2.key));
    lemma_join(x);
    assert(rotated_right(m) == x);
    assert(keys_of(Some(Box::new(x))) =~= keys_of(Some(Box::new(m))));
}

/// The mirror of `lemma_rotate_right_repairs`.
pub proof fn lemma_rotate_left_repairs(m: Node)
    requires
        m.right is Some,
        is_bst(Some(Box::new(m))),
        is_avl(m.left),
        is_avl(m.right),
        height_of(m.right) == height_of(m.left) + 2,
        balance_of(m.right) == -1,
        height_of(m.right) < i32::MAX,
    ensures
        is_avl(Some(Box::new(rotated_left(m)))),
        keys_of(Some(Box::new(rotated_left(m)))) == keys_of(Some(Box::new(m))),
        height_of(Some(Box::new(rotated_left(m)))) == height_of(m.right),
{
    let p = *m.right.unwrap();
    let c = height_of(m.left);
    lemma_height_nonneg(m.left);
    assert(is_avl(p.left) && is_avl(p.right));
    assert(height_of(p.right) == c + 1 && height_of(p.left) == c);
    assert(keys_of(m.right) == keys_of(p.left).union(keys_of(p.right)).insert(p.key));
    let x2 = with_height(Node { right: p.left, ..m });
    assert forall|k: i32| keys_of(x2.right).contains(k) implies x2.key < k by {
        assert(keys_of(m.right).contains(k));
    }
    lemma_join(x2);
    let y = with_height(Node { left: Some(Box::new(x2)), ..p });
    assert(keys_of(m.right).contains(p.key));
    assert(keys_of(y.left) == keys_of(x2.left).union(keys_of(x2.right)).insert(x2.key));
    lemma_join(y);
    assert(rotated_left(m) == y);
    assert(keys_of(Some(Box::new(y))) =~= keys_of(Some(Box::new(m))));
}

/// A left rotation of the left child followed by a right rotation, on a node whose left child
/// is two higher than its right child and leans right, yields an AVL tree one lower than the
/// left child was, with the same keys.
pub proof fn lemma_left_right_repairs(m: Node)
    requires
        m.left is Some,
        is_bst(Some(Box::new(m))),
        is_avl(m.left),
        is_avl(m.right),
        height_of(m.left) == height_of(m.right) + 2,
        balance_of(m.left) == -1,
        height_of(m.left) < i32::MAX,
    ensures
        ({
            let r = rotated_right(Node { left: Some(Box::new(rotated_left(*m.left.unwrap()))), ..m });
            &&& is_avl(Some(Box::new(r)))
            &&& keys_of(Some(Box::new(r))) == keys_of(Some(Box::new(m)))
            &&& height_of(Some(Box::new(r))) == height_of(m.left)
        }),
{
    let p = *m.left.unwrap();
    let c = height_of(m.right);
    lemma_height_nonneg(m.right);
    assert(is_avl(p.left) && is_avl(p.right));
    assert(height_of(p.left) == c && height_of(p.right) == c + 1);
    let q = *p.right.unwrap();
    assert(is_avl(q.left) && is_avl(q.right));
    assert(c - 1 <= height_of(q.left) <= c && c - 1 <= height_of(q.right) <= c);
    assert(keys_of(m.left) == keys_of(p.left).union(keys_of(p.right)).insert(p.key));
    assert(keys_of(p.right) == keys_of(q.left).union(keys_of(q.right)).insert(q.key));
    assert(keys_of(m.left).contains(p.key));
    assert(keys_of(m.left).contains(q.key));
    assert(keys_of(p.right).contains(q.key));
    let x2 = with_height(Node { right: q.left, ..p });
    assert forall|k: i32| keys_of(x2.right).contains(k) implies x2.key < k by {
        assert(keys_of(p.right).contains(k));
    }
    lemma_join(x2);
    let y2 = with_height(Node { left: q.right, ..m });
    assert forall|k: i32| keys_of(y2.left).contains(k) implies k < y2.key by {
        assert(keys_of(m.left).contains(k));
    }
    lemma_join(y2);
    let top = with_height(Node { left: Some(Box::new(x2)), right: Some(Box::new(y2)), ..q });
    assert(keys_of(top.left) == keys_of(x2.left).union(keys_of(x2.right)).insert(x2.key));
    assert(keys_of(top.right) == keys_of(y2.left).union(keys_of(y2.right)).insert(y2.key));
    assert forall|k: i32| keys_of(top.left).contains(k) implies k < top.key by {
        if keys_of(p.left).contains(k) {
            assert(k < p.key);
        }
    }
    lemma_join(top);
    let pl = rotated_left(p);
    assert(pl == with_height(Node { left: Some(Box::new(x2)), ..q }));
    assert(rotated_right(Node { left: Some(Box::new(pl)), ..m }) == top);
    assert(keys_of(Some(Box::new(top))) =~= keys_of(Some(Box::new(m))));
}

/// The mirror of `lemma_left_right_repairs`.
pub proof fn lemma_right_left_repairs(m: Node)
    requires
        m.right is Some,
        is_bst(Some(Box::new(m))),
        is_avl(m.left),
        is_avl(m.right),
        height_of(m.right) == height_of(m.left) + 2,
        balance_of(m.right) == 1,
        height_of(m.right) < i32::MAX,
    ensures
        ({
            let r = rotated_left(Node { right: Some(Box::new(rotated_right(*m.right.unwrap()))), ..m });
            &&& is_avl(Some(Box::new(r)))
            &&& keys_of(Some(Box::new(r))) == keys_of(Some(Box::new(m)))
            &&& height_of(Some(Box::new(r))) == height_of(m.right)
        }),
{
    let p = *m.right.unwrap();
    let c = height_of(m.left);
    lemma_height_nonneg(m.left);
    assert(is_avl(p.left) && is_avl(p.right));
    assert(height_of(p.right) == c && height_of(p.left) == c + 1);
    let q = *p.left.unwrap();
    assert(is_avl(q.left) && is_avl(q.right));
    assert(c - 1 <= height_of(q.left) <= c && c - 1 <= height_of(q.right) <= c);
    assert(keys_of(m.right) == keys_of(p.left).union(keys_of(p.right)).insert(p.key));
    assert(keys_of(p.left) == keys_of(q.left).union(keys_of(q.right)).insert(q.key));
    assert(keys_of(m.right).contains(p.key));
    assert(keys_of(m.right).contains(q.key));
    assert(keys_of(p.left).contains(q.key));
    let y2 = with_height(Node { left: q.right, ..p });
    assert forall|k: i32| keys_of(y2.left).contains(k) implies k < y2.key by {
        assert(keys_of(p.left).contains(k));
    }
    lemma_join(y2);
    let x2 = with_height(Node { right: q.left, ..m });
    assert forall|k: i32| keys_of(x2.right).contains(k) implies x2.key < k by {
        assert(keys_of(m.right).contains(k));
    }
    lemma_join(x2);
    let top = with_height(Node { left: Some(Box::new(x2)), right: Some(Box::new(y2)), ..q });
    assert(keys_of(top.left) == keys_of(x2.left).union(keys_of(x2.right)).insert(x2.key));
    assert(keys_of(top.right) == keys_of(y2.left).union(keys_of(y2.right)).insert(y2.key));
    assert forall|k: i32| keys_of(top.right).contains(k) implies top.key < k by {
        if keys_of(p.right).contains(k) {
            assert(p.key < k);
        }
    }
    lemma_join(top);
    let pr = rotated_right(p);
    assert(pr == with_height(Node { right: Some(Box::new(y2)), ..q }));
    assert(rotated_left(Node { right: Some(Box::new(pr)), ..m }) == top);
    assert(keys_of(Some(Box::new(top))) =~= keys_of(Some(Box::new(m))));
}

/// The facts that insertion of `key` into `t` establishes, for the subtree `r` it gives.
pub open spec fn insertion_facts(t: Option<Box<Node>>, key: i32, r: Option<Box<Node>>) -> bool {
    &&& is_avl(r)
    &&& keys_of(r) == keys_of(t).insert(key)
    &&& height_of(t) <= height_of(r) <= height_of(t) + 1
    &&& height_of(r) == height_of(t) + 1 ==> leans_toward(r, key)
    &&& keys_of(t).contains(key) ==> r == t
}

/// The step of insertion that descends left, given what the insertion into the left child
/// established.
proof fn lemma_insert_step_left(n: Node, key: i32)
    requires
        is_avl(Some(Box::new(n))),
        n.height < i32::MAX,
        key < n.key,
        insertion_facts(n.left, key, inserted(n.left, key)),
    ensures
        insertion_facts(Some(Box::new(n)), key, inserted(Some(Box::new(n)), key)),
{
    let t = Some(Box::new(n));
    lemma_height_nonneg(n.left);
    lemma_height_nonneg(n.right);
    let l2 = inserted(n.left, key);
    let m = with_height(Node { left: l2, ..n });
    assert(inserted(t, key) == Some(Box::new(rebalanced(m, key))));
    assert forall|k: i32| keys_of(m.left).contains(k) implies k < m.key by {
        if k != key {
            assert(keys_of(n.left).contains(k));
        }
    }
    assert(is_bst(Some(Box::new(m))));
    assert(keys_of(Some(Box::new(m))) =~= keys_of(t).insert(key));
    if keys_of(t).contains(key) {
        assert(keys_of(t) == keys_of(n.left).union(keys_of(n.right)).insert(n.key));
        assert(!keys_of(n.right).contains(key));
        assert(keys_of(n.left).contains(key));
        assert(m == n);
    }
    if height_of(l2) - height_of(n.right) <= 1 {
        assert(rebalanced(m, key) == m);
        lemma_join(m);
    } else {
        let p = *l2.unwrap();
        if key < p.key {
            lemma_rotate_right_repairs(m);
        } else {
            lemma_left_right_repairs(m);
        }
    }
}

/// The mirror of `lemma_insert_step_left`.
proof fn lemma_insert_step_right(n: Node, key: i32)
    requires
        is_avl(Some(Box::new(n))),
        n.height < i32::MAX,
        key > n.key,
        insertion_facts(n.right, key, inserted(n.right, key)),
    ensures
        insertion_facts(Some(Box::new(n)), key, inserted(Some(Box::new(n)), key)),
{
    let t = Some(Box::new(n));
    lemma_height_nonneg(n.left);
    lemma_height_nonneg(n.right);
    let r2 = inserted(n.right, key);
    let m = with_height(Node { right: r2, ..n });
    assert(inserted(t, key) == Some(Box::new(rebalanced(m, key))));
    assert forall|k: i32| keys_of(m.right).contains(k) implies m.key < k by {
        if k != key {
            assert(keys_of(n.right).contains(k));
        }
    }
    assert(is_bst(Some(Box::new(m))));
    assert(keys_of(Some(Box::new(m))) =~= keys_of(t).insert(key));
    if keys_of(t).contains(key) {
        assert(keys_of(t) == keys_of(n.left).union(keys_of(n.right)).insert(n.key));
        assert(!keys_of(n.left).contains(key));
        assert(keys_of(n.right).contains(key));
        assert(m == n);
    }
    if height_of(r2) - height_of(n.left) <= 1 {
        assert(rebalanced(m, key) == m);
        lemma_join(m);
    } else {
        let p = *r2.unwrap();
        if key > p.key {
            lemma_rotate_left_repairs(m);
        } else {
            lemma_right_left_repairs(m);
        }
    }
}

/// Insertion into an AVL tree gives an AVL tree holding one key more (or the same tree, when
/// the key was there), at most one higher.
pub proof fn lemma_inserted(t: Option<Box<Node>>, key: i32)
    requires
        is_avl(t),
        height_of(t) < i32::MAX,
    ensures
        insertion_facts(t, key, inserted(t, key)),
    decreases t,
{
    match t {
        None => {
            assert(keys_of(inserted(t, key)) =~= keys_of(t).insert(key));
        },
        Some(n) => {
            lemma_height_nonneg(n.left);
            lemma_height_nonneg(n.right);
            if key < n.key {
                lemma_inserted(n.left, key);
                lemma_insert_step_left(*n, key);
            } else if key > n.key {
                lemma_inserted(n.right, key);
                lemma_insert_step_right(*n, key);
            } else {
                assert(keys_of(t) =~= keys_of(t).insert(key));
            }
        },
    }
}

/// Reading a search tree left to right gives its keys in strictly increasing order, each once.
pub proof fn lemma_inorder_sorted(t: Option<Box<Node>>)
    requires
        is_bst(t),
    ensures
        forall|i: int, j: int| 0 <= i < j < inorder(t).len() ==> inorder(t)[i] < inorder(t)[j],
        inorder(t).to_set() == keys_of(t),
        inorder(t).len() == size_of(t),
    decreases t,
{
    if let Some(n) = t {
        lemma_inorder_sorted(n.left);
        lemma_inorder_sorted(n.right);
        let l = inorder(n.left);
        let r = inorder(n.right);
        let s = inorder(t);
        assert(s == l + seq![n.key] + r);
        assert forall|i: int| 0 <= i < l.len() implies l[i] < n.key by {
            assert(l.to_set().contains(l[i]));
        }
        assert forall|i: int| 0 <= i < r.len() implies n.key < r[i] by {
            assert(r.to_set().contains(r[i]));
        }
        assert forall|i: int, j: int| 0 <= i < j < s.len() implies s[i] < s[j] by {
            if i < l.len() && j > l.len() {
                assert(s[i] == l[i]);
                assert(s[j] == r[j - l.len() - 1]);
            }
            if i == l.len() {
                assert(s[j] == r[j - l.len() - 1]);
            }
            if j == l.len() {
                assert(s[i] == l[i]);
            }
            if j < l.len() {
                assert(s[i] == l[i] && s[j] == l[j]);
            }
            if i > l.len() {
                assert(s[i] == r[i - l.len() - 1] && s[j] == r[j - l.len() - 1]);
            }
        }
        assert forall|k: i32| s.to_set().contains(k) <==> keys_of(t).contains(k) by {
            if s.to_set().contains(k) {
                let i = choose|i: int| 0 <= i < s.len() && s[i] == k;
                if i < l.len() {
                    assert(l.to_set().contains(l[i]));
                } else if i > l.len() {
                    assert(r.to_set().contains(r[i - l.len() - 1]));
                }
            }
            if keys_of(n.left).contains(k) {
                let i = choose|i: int| 0 <= i < l.len() && l[i] == k;
                assert(s[i] == k);
            }
            if keys_of(n.right).contains(k) {
                let i = choose|i: int| 0 <= i < r.len() && r[i] == k;
                assert(s[i + l.len() + 1] == k);
            }
            if k == n.key {
                assert(s[l.len() as int] == k);
            }
        }
        assert(s.to_set() =~= keys_of(t));
    } else {
        assert(inorder(t).to_set() =~= keys_of(t));
    }
}

proof fn lemma_increasing_spread(s: Seq<i32>, i: int)
    requires
        forall|a: int, b: int| 0 <= a < b < s.len() ==> s[a] < s[b],
        0 <= i < s.len(),
    ensures
        s[i] >= s[0] + i,
    decreases i,
{
    if i > 0 {
        lemma_increasing_spread(s, i - 1);
    }
}

/// A search tree of `i32` keys has at most `2^32` nodes.
pub proof fn lemma_size_fits(t: Option<Box<Node>>)
    requires
        is_bst(t),
    ensures
        size_of(t) <= 0x1_0000_0000,
{
    lemma_inorder_sorted(t);
    let s = inorder(t);
    if s.len() > 0 {
        lemma_increasing_spread(s, s.len() - 1);
    }
}

} // verus!

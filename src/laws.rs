//! What holds of every tree that a sequence of insertions builds.
use vstd::arithmetic::power::pow;
use vstd::prelude::*;

use crate::height_bound::{lemma_height_fits, lemma_height_logarithmic};
use crate::node::{
    built_from, height_of, heights_ok, inorder, inserted, is_avl, is_balanced, keys_of, size_of,
    Node,
};
use crate::proofs::{lemma_inorder_sorted, lemma_inserted};

verus! {

/// Any sequence of insertions into an empty tree leaves an AVL tree holding exactly the
/// inserted keys.
pub proof fn lemma_built_is_avl(keys: Seq<i32>)
    ensures
        is_avl(built_from(keys)),
        keys_of(built_from(keys)) == keys.to_set(),
    decreases keys.len(),
{
    if keys.len() == 0 {
        assert(keys.to_set() =~= Set::empty());
    } else {
        let rest = keys.drop_last();
        lemma_built_is_avl(rest);
        lemma_height_fits(built_from(rest));
        lemma_inserted(built_from(rest), keys.last());
        assert(keys == rest.push(keys.last()));
        assert(keys.to_set() =~= rest.to_set().insert(keys.last())) by {
            assert forall|k: i32| keys.to_set().contains(k) implies rest.to_set().insert(
                keys.last(),
            ).contains(k) by {
                let i = choose|i: int| 0 <= i < keys.len() && keys[i] == k;
                if i < rest.len() {
                    assert(rest[i] == k);
                }
            }
            assert forall|k: i32| rest.to_set().contains(k) implies keys.to_set().contains(k) by {
                let i = choose|i: int| 0 <= i < rest.len() && rest[i] == k;
                assert(keys[i] == k);
            }
            assert(keys[keys.len() - 1] == keys.last());
        }
    }
}

/// Search order: after any sequence of insertions, reading the tree left to right gives
/// strictly increasing keys.
pub proof fn lemma_inorder_increasing(keys: Seq<i32>)
    ensures
        forall|i: int, j: int|
            0 <= i < j < inorder(built_from(keys)).len() ==> inorder(built_from(keys))[i]
                < inorder(built_from(keys))[j],
{
    lemma_built_is_avl(keys);
    lemma_inorder_sorted(built_from(keys));
}

/// Balance: after any sequence of insertions, the children's heights differ by at most one at
/// every node.
pub proof fn lemma_balanced(keys: Seq<i32>)
    ensures
        is_balanced(built_from(keys)),
{
    lemma_built_is_avl(keys);
}

/// Heights: after any sequence of insertions, every stored height is one more than the larger
/// stored height of the node's children (absent children counting 0).
pub proof fn lemma_heights_correct(keys: Seq<i32>)
    ensures
        heights_ok(built_from(keys)),
{
    lemma_built_is_avl(keys);
}

/// Search: after any sequence of insertions the tree holds a key, which is what `search_key`
/// reports, exactly when the key was inserted.
pub proof fn lemma_holds_inserted(keys: Seq<i32>, k: i32)
    ensures
        keys_of(built_from(keys)).contains(k) <==> keys.contains(k),
{
    lemma_built_is_avl(keys);
    if keys.contains(k) {
        let i = choose|i: int| 0 <= i < keys.len() && keys[i] == k;
        assert(keys.to_set().contains(keys[i]));
    }
}

/// Inserting a key that an AVL tree already holds, in particular inserting the same key twice
/// in a row, leaves the tree as it was.
pub proof fn lemma_insert_twice(t: Option<Box<Node>>, k: i32)
    requires
        is_avl(t),
    ensures
        inserted(inserted(t, k), k) == inserted(t, k),
{
    lemma_height_fits(t);
    lemma_inserted(t, k);
    lemma_height_fits(inserted(t, k));
    lemma_inserted(inserted(t, k), k);
}

/// Inserting the same key twice after any sequence of insertions gives the tree that
/// inserting it once gives.
pub proof fn lemma_duplicate_idempotent(keys: Seq<i32>, k: i32)
    ensures
        built_from(keys.push(k).push(k)) == built_from(keys.push(k)),
{
    lemma_built_is_avl(keys);
    assert(keys.push(k).push(k).drop_last() == keys.push(k));
    assert(keys.push(k).drop_last() == keys);
    lemma_insert_twice(built_from(keys), k);
}

/// Height bound: after `n` insertions of distinct keys the height `h` of the tree satisfies
/// `h <= 1.45 * log2(n + 2)`, stated in integers as `2^(20 * h) <= (n + 2)^29`.
pub proof fn lemma_height_bound(keys: Seq<i32>)
    requires
        keys.no_duplicates(),
    ensures
        pow(2, (20 * height_of(built_from(keys))) as nat) <= pow(keys.len() + 2 as int, 29),
{
    let t = built_from(keys);
    lemma_built_is_avl(keys);
    lemma_inorder_sorted(t);
    lemma_height_logarithmic(t);
    let s = inorder(t);
    assert(s.no_duplicates());
    s.unique_seq_to_set();
    keys.unique_seq_to_set();
    assert(size_of(t) == keys.len());
}

} // verus!

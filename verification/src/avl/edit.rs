//! Insertion into and deletion from the subtrees of an AVL tree.

use crate::avl::balance::{balance, balanced, rebalanced};
use crate::node::{
    bounded, height, least, lemma_found_within, lemma_widen, lookup, size, within, Link, TreeNode,
};
use crate::order::{key_lt, lemma_order_laws, rank, total_order, Rank};
use vstd::prelude::*;

verus! {

/// The subtree `t` after the insertion of a key that it does not hold yet.
/// The entry becomes a leaf where a search for `k` runs out of `t`, and
/// each node on the way from there back to the top is rebalanced.
pub open spec fn with_entry<K: Ord, V>(t: Link<K, V, usize>, k: K, v: V) -> Link<K, V, usize>
    decreases t,
{
    match t {
        None => Some(Box::new(TreeNode { key: k, value: v, tag: 1, left: None, right: None })),
        Some(n) => if k == n.key {
            t
        } else if key_lt(k, n.key) {
            Some(rebalanced(Box::new(TreeNode { left: with_entry(n.left, k, v), ..*n })))
        } else {
            Some(rebalanced(Box::new(TreeNode { right: with_entry(n.right, k, v), ..*n })))
        },
    }
}

/// The subtree at `node` after the removal of its smallest entry: the node
/// at the end of the left edge gives way to its right child, and each node
/// on the way from there back to the top is rebalanced.
pub open spec fn without_least<K: Ord, V>(node: Box<TreeNode<K, V, usize>>) -> Link<K, V, usize>
    decreases node,
{
    match node.left {
        None => node.right,
        Some(left) => Some(rebalanced(Box::new(TreeNode { left: without_least(left), ..*node }))),
    }
}

/// The subtree `t` after the removal of a key that it holds. A node with at
/// most one child gives way to that child. A node with two children takes
/// over the smallest entry of its right subtree, which is removed there.
/// Each node on the way from the place of the change back to the top is
/// rebalanced.
pub open spec fn without_entry<K: Ord, V>(t: Link<K, V, usize>, k: K) -> Link<K, V, usize>
    decreases t,
{
    match t {
        None => None,
        Some(n) => if k == n.key {
            match n.right {
                None => n.left,
                Some(right) => if n.left is None {
                    n.right
                } else {
                    Some(
                        rebalanced(
                            Box::new(
                                TreeNode {
                                    key: least(right).0,
                                    value: least(right).1,
                                    right: without_least(right),
                                    ..*n
                                },
                            ),
                        ),
                    )
                },
            }
        } else if key_lt(k, n.key) {
            Some(rebalanced(Box::new(TreeNode { left: without_entry(n.left, k), ..*n })))
        } else {
            Some(rebalanced(Box::new(TreeNode { right: without_entry(n.right, k), ..*n })))
        },
    }
}

/// Inserts `k` with `v` into `t` unless `k` is already there, and says
/// whether it did. The new entry becomes a leaf at the place where a search
/// for `k` ends, and every node on the way back up is rebalanced.
pub(crate) fn insert_into<K: Ord, V>(
    t: Link<K, V, usize>,
    k: K,
    v: V,
    Ghost(lo): Ghost<Option<K>>,
    Ghost(hi): Ghost<Option<K>>,
) -> (r: (Link<K, V, usize>, bool))
    requires
        total_order::<K>(),
        bounded(t, lo, hi),
        balanced(t),
        within(k, lo, hi),
        size(t) < usize::MAX,
    ensures
        r.1 == (lookup(t, k) is None),
        !r.1 ==> r.0 == t,
        r.1 ==> {
            &&& r.0 == with_entry(t, k, v)
            &&& bounded(r.0, lo, hi)
            &&& balanced(r.0)
            &&& size(r.0) == size(t) + 1
            &&& forall|x: K| #![trigger lookup(r.0, x)]
 lookup(r.0, x) == if x == k {
                    Some(v)
                } else {
                    lookup(t, x)
                }
            &&& (height(r.0) == height(t) || height(r.0) == height(t) + 1)
        },
    decreases t,
{
    proof {
        lemma_order_laws::<K>();
    }
    match t {
        None => {
            let leaf = Box::new(TreeNode { key: k, value: v, tag: 1, left: None, right: None });
            proof {
                reveal_with_fuel(lookup, 2);
                reveal_with_fuel(bounded, 2);
                reveal_with_fuel(size, 2);
                reveal_with_fuel(height, 2);
                reveal_with_fuel(balanced, 2);
            }
            (Some(leaf), true)
        },
        Some(mut node) => {
            let ghost before = node;
            match rank(&k, &node.key) {
                Rank::Same => (Some(node), false),
                Rank::Below => {
                    let (left, fresh) = insert_into(
                        node.left.take(),
                        k,
                        v,
                        Ghost(lo),
                        Ghost(Some(node.key)),
                    );
                    node.left = left;
                    if fresh {
                        let ghost joined = node;
                        let node = balance(node, Ghost(lo), Ghost(hi));
                        proof {
                            assert forall|x: K| #![trigger lookup(Some(node), x)]
 lookup(Some(node), x) == if x == k {
                                    Some(v)
                                } else {
                                    lookup(Some(before), x)
                                } by {
                                assert(lookup(Some(node), x) == lookup(Some(joined), x));
                                assert(lookup(left, x) == if x == k {
                                    Some(v)
                                } else {
                                    lookup(before.left, x)
                                });
                            }
                        }
                        (Some(node), true)
                    } else {
                        (Some(node), false)
                    }
                },
                Rank::Above => {
                    let (right, fresh) = insert_into(
                        node.right.take(),
                        k,
                        v,
                        Ghost(Some(node.key)),
                        Ghost(hi),
                    );
                    node.right = right;
                    if fresh {
                        let ghost joined = node;
                        let node = balance(node, Ghost(lo), Ghost(hi));
                        proof {
                            assert forall|x: K| #![trigger lookup(Some(node), x)]
 lookup(Some(node), x) == if x == k {
                                    Some(v)
                                } else {
                                    lookup(Some(before), x)
                                } by {
                                assert(lookup(Some(node), x) == lookup(Some(joined), x));
                                assert(lookup(right, x) == if x == k {
                                    Some(v)
                                } else {
                                    lookup(before.right, x)
                                });
                            }
                        }
                        (Some(node), true)
                    } else {
                        (Some(node), false)
                    }
                },
            }
        },
    }
}

/// Takes the entry with the smallest key out of the subtree that starts at
/// `node` and rebalances every node on the way back up.
pub(crate) fn delete_min<K: Ord, V>(
    mut node: Box<TreeNode<K, V, usize>>,
    Ghost(lo): Ghost<Option<K>>,
    Ghost(hi): Ghost<Option<K>>,
) -> (r: (Link<K, V, usize>, K, V))
    requires
        total_order::<K>(),
        bounded(Some(node), lo, hi),
        balanced(Some(node)),
        size(Some(node)) <= usize::MAX,
    ensures
        r.0 == without_least(node),
        (r.1, r.2) == least(node),
        within(r.1, lo, hi),
        lookup(Some(node), r.1) == Some(r.2),
        bounded(r.0, Some(r.1), hi),
        balanced(r.0),
        size(r.0) + 1 == size(Some(node)),
        forall|x: K|
            #![trigger lookup(r.0, x)]
            lookup(r.0, x) == if x == r.1 {
                None
            } else {
                lookup(Some(node), x)
            },
        height(r.0) == height(Some(node)) || height(r.0) + 1 == height(Some(node)),
    decreases node,
{
    proof {
        lemma_order_laws::<K>();
        reveal_with_fuel(lookup, 2);
        reveal_with_fuel(size, 2);
        reveal_with_fuel(height, 2);
    }
    let ghost before = node;
    match node.left.take() {
        None => {
            let TreeNode { key, value, right, .. } = *node;
            proof {
                assert forall|x: K| #![trigger lookup(right, x)]
                    lookup(right, x) == if x == key {
                        None
                    } else {
                        lookup(Some(before), x)
                    } by {
                    if lookup(right, x) is Some {
                        lemma_found_within(right, Some(key), hi, x);
                    }
                }
            }
            (right, key, value)
        },
        Some(left) => {
            let (rest, min_key, min_value) = delete_min(left, Ghost(lo), Ghost(Some(node.key)));
            node.left = rest;
            let ghost joined = node;
            let node = balance(node, Ghost(Some(min_key)), Ghost(hi));
            proof {
                assert forall|x: K| #![trigger lookup(Some(node), x)]
                    lookup(Some(node), x) == if x == min_key {
                        None
                    } else {
                        lookup(Some(before), x)
                    } by {
                    assert(lookup(Some(node), x) == lookup(Some(joined), x));
                    assert(lookup(rest, x) == if x == min_key {
                        None
                    } else {
                        lookup(before.left, x)
                    });
                }
            }
            (Some(node), min_key, min_value)
        },
    }
}

/// Takes the entry with key `k` out of `t`, if there is one. A node with at
/// most one child is replaced by that child; a node with two children takes
/// over the entry with the next larger key, which is removed from the right
/// subtree. Every node on the way back up is rebalanced.
pub(crate) fn delete<K: Ord, V>(
    t: Link<K, V, usize>,
    k: &K,
    Ghost(lo): Ghost<Option<K>>,
    Ghost(hi): Ghost<Option<K>>,
) -> (r: (Link<K, V, usize>, Option<(K, V)>))
    requires
        total_order::<K>(),
        bounded(t, lo, hi),
        balanced(t),
        size(t) <= usize::MAX,
    ensures
        match r.1 {
            None => lookup(t, *k) is None && r.0 == t,
            Some(gone) => {
                &&& r.0 == without_entry(t, *k)
                &&& gone.0 == *k
                &&& lookup(t, *k) == Some(gone.1)
                &&& bounded(r.0, lo, hi)
                &&& balanced(r.0)
                &&& size(r.0) + 1 == size(t)
                &&& forall|x: K|
                    #![trigger lookup(r.0, x)]
                    lookup(r.0, x) == if x == *k {
                        None
                    } else {
                        lookup(t, x)
                    }
                &&& (height(r.0) == height(t) || height(r.0) + 1 == height(t))
            },
        },
    decreases t,
{
    proof {
        lemma_order_laws::<K>();
        reveal_with_fuel(lookup, 2);
        reveal_with_fuel(size, 2);
        reveal_with_fuel(height, 2);
    }
    match t {
        None => (None, None),
        Some(mut node) => {
            let ghost before = node;
            match rank(k, &node.key) {
                Rank::Below => {
                    let (left, gone) = delete(
                        node.left.take(),
                        k,
                        Ghost(lo),
                        Ghost(Some(node.key)),
                    );
                    node.left = left;
                    match gone {
                        None => (Some(node), None),
                        Some(entry) => {
                            let ghost joined = node;
                            let node = balance(node, Ghost(lo), Ghost(hi));
                            proof {
                                assert forall|x: K| #![trigger lookup(Some(node), x)]
                                    lookup(Some(node), x) == if x == *k {
                                        None
                                    } else {
                                        lookup(Some(before), x)
                                    } by {
                                    assert(lookup(Some(node), x) == lookup(Some(joined), x));
                                    assert(lookup(left, x) == if x == *k {
                                        None
                                    } else {
                                        lookup(before.left, x)
                                    });
                                }
                            }
                            (Some(node), Some(entry))
                        },
                    }
                },
                Rank::Above => {
                    let (right, gone) = delete(
                        node.right.take(),
                        k,
                        Ghost(Some(node.key)),
                        Ghost(hi),
                    );
                    node.right = right;
                    match gone {
                        None => (Some(node), None),
                        Some(entry) => {
                            let ghost joined = node;
                            let node = balance(node, Ghost(lo), Ghost(hi));
                            proof {
                                assert forall|x: K| #![trigger lookup(Some(node), x)]
                                    lookup(Some(node), x) == if x == *k {
                                        None
                                    } else {
                                        lookup(Some(before), x)
                                    } by {
                                    assert(lookup(Some(node), x) == lookup(Some(joined), x));
                                    assert(lookup(right, x) == if x == *k {
                                        None
                                    } else {
                                        lookup(before.right, x)
                                    });
                                }
                            }
                            (Some(node), Some(entry))
                        },
                    }
                },
                Rank::Same => {
                    match node.right.take() {
                        None => {
                            let TreeNode { key, value, left, .. } = *node;
                            proof {
                                lemma_widen(left, lo, Some(key), lo, hi);
                                assert forall|x: K| #![trigger lookup(left, x)]
                                    lookup(left, x) == if x == key {
                                        None
                                    } else {
                                        lookup(Some(before), x)
                                    } by {
                                    if lookup(left, x) is Some {
                                        lemma_found_within(left, lo, Some(key), x);
                                    }
                                }
                            }
                            (left, Some((key, value)))
                        },
                        Some(right) => {
                            if node.left.is_none() {
                                let TreeNode { key, value, .. } = *node;
                                proof {
                                    lemma_widen(Some(right), Some(key), hi, lo, hi);
                                    assert forall|x: K| #![trigger lookup(Some(right), x)]
                                        lookup(Some(right), x) == if x == key {
                                            None
                                        } else {
                                            lookup(Some(before), x)
                                        } by {
                                        if lookup(Some(right), x) is Some {
                                            lemma_found_within(Some(right), Some(key), hi, x);
                                        }
                                    }
                                }
                                (Some(right), Some((key, value)))
                            } else {
                                let (rest, mut key, mut value) = delete_min(
                                    right,
                                    Ghost(Some(node.key)),
                                    Ghost(hi),
                                );
                                let ghost next = key;
                                std::mem::swap(&mut node.key, &mut key);
                                std::mem::swap(&mut node.value, &mut value);
                                node.right = rest;
                                proof {
                                    lemma_widen(node.left, lo, Some(key), lo, Some(next));
                                }
                                let ghost joined = node;
                                let node = balance(node, Ghost(lo), Ghost(hi));
                                proof {
                                    assert forall|x: K| #![trigger lookup(Some(node), x)]
                                        lookup(Some(node), x) == if x == key {
                                            None
                                        } else {
                                            lookup(Some(before), x)
                                        } by {
                                        assert(lookup(Some(node), x) == lookup(Some(joined), x));
                                        assert(lookup(rest, x) == if x == next {
                                            None
                                        } else {
                                            lookup(before.right, x)
                                        });
                                        if lookup(rest, x) is Some {
                                            lemma_found_within(rest, Some(next), hi, x);
                                        }
                                        if lookup(before.left, x) is Some {
                                            lemma_found_within(before.left, lo, Some(key), x);
                                        }
                                    }
                                }
                                (Some(node), Some((key, value)))
                            }
                        },
                    }
                },
            }
        },
    }
}

} // verus!

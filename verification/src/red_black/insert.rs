//! Insertion into the subtrees of a red-black tree.

use crate::node::{bounded, lookup, size, within, Link, TreeNode};
use crate::order::{key_lt, lemma_order_laws, rank, total_order, Rank};
use crate::red_black::color::{
    black_balanced, black_height, is_red, left_child_red, nearly_no_red_red, no_red_red, paint,
    painted, red_on_red, right_child_red, starts_red, NodeColor,
};
use crate::red_black::rotate::{
    left_left_rotated, left_left_rotation, left_right_rotated, left_right_rotation,
    right_left_rotated, right_left_rotation, right_right_rotated, right_right_rotation,
};
use vstd::prelude::*;

verus! {

/// The subtree at `node` with both children in black and `node` in red.
pub open spec fn recoloured<K: Ord, V>(node: Box<TreeNode<K, V, NodeColor>>) -> Box<
    TreeNode<K, V, NodeColor>,
> {
    Box::new(
        TreeNode {
            tag: NodeColor::Red,
            left: painted(node.left, NodeColor::Black),
            right: painted(node.right, NodeColor::Black),
            ..*node
        },
    )
}

/// The subtree at `node` after a red child with a red child of its own has
/// been mended. Where the other child of `node` is red, the subtree is
/// recoloured. Where it is black, `node` is rotated away from the red
/// child, after that child, where its red child is on the inner side, has
/// been turned outwards. A node without such a child stays as it is.
#[verifier::opaque]
pub open spec fn insert_balanced<K: Ord, V>(node: Box<TreeNode<K, V, NodeColor>>) -> Box<
    TreeNode<K, V, NodeColor>,
> {
    if red_on_red(node.left) {
        if is_red(node.right) {
            recoloured(node)
        } else if is_red(node.left.unwrap().left) {
            left_left_rotated(node)
        } else {
            left_right_rotated(node)
        }
    } else if red_on_red(node.right) {
        if is_red(node.left) {
            recoloured(node)
        } else if is_red(node.right.unwrap().right) {
            right_right_rotated(node)
        } else {
            right_left_rotated(node)
        }
    } else {
        node
    }
}

/// The subtree `t` after the insertion of a key that it does not hold yet.
/// The entry becomes a red leaf where a search for `k` runs out of `t`, and
/// each node on the way from there back to the top mends what lies below
/// it.
pub open spec fn with_entry<K: Ord, V>(t: Link<K, V, NodeColor>, k: K, v: V) -> Link<
    K,
    V,
    NodeColor,
>
    decreases t,
{
    match t {
        None => Some(
            Box::new(TreeNode { key: k, value: v, tag: NodeColor::Red, left: None, right: None }),
        ),
        Some(n) => if k == n.key {
            t
        } else if key_lt(k, n.key) {
            Some(insert_balanced(Box::new(TreeNode { left: with_entry(n.left, k, v), ..*n })))
        } else {
            Some(insert_balanced(Box::new(TreeNode { right: with_entry(n.right, k, v), ..*n })))
        },
    }
}

/// Mends a red child with a red child of its own below the black node
/// `node`, as seen from that node, the grandparent of the lower red node.
/// Where the other child of `node` is red too, the two children become black
/// and `node` red, which may leave the same fault one level up. Otherwise a
/// single or a double rotation puts a black node on top with two red
/// children. A node without that fault below it is left as it is.
pub(crate) fn insert_balance<K: Ord, V>(
    mut node: Box<TreeNode<K, V, NodeColor>>,
    Ghost(lo): Ghost<Option<K>>,
    Ghost(hi): Ghost<Option<K>>,
) -> (r: Box<TreeNode<K, V, NodeColor>>)
    requires
        total_order::<K>(),
        bounded(Some(node), lo, hi),
        black_balanced(Some(node)),
        nearly_no_red_red(node.left),
        nearly_no_red_red(node.right),
        !red_on_red(node.left) || !red_on_red(node.right),
        red_on_red(node.left) || red_on_red(node.right) ==> node.tag == NodeColor::Black,
    ensures
        r == insert_balanced(node),
        bounded(Some(r), lo, hi),
        forall|x: K| #![trigger lookup(Some(r), x)] lookup(Some(r), x) == lookup(Some(node), x),
        size(Some(r)) == size(Some(node)),
        black_balanced(Some(r)),
        black_height(Some(r)) == black_height(Some(node)),
        node.tag == NodeColor::Black ==> no_red_red(Some(r)),
        node.tag == NodeColor::Red ==> r == node,
{
    proof {
        reveal(insert_balanced);
        reveal_with_fuel(black_height, 3);
        reveal_with_fuel(black_balanced, 3);
        reveal_with_fuel(no_red_red, 3);
    }
    if starts_red(&node.left) && (left_child_red(&node.left) || right_child_red(&node.left)) {
        if starts_red(&node.right) {
            let ghost before = node;
            node.left = paint(node.left.take(), NodeColor::Black);
            node.right = paint(node.right.take(), NodeColor::Black);
            node.tag = NodeColor::Red;
            proof {
                reveal_with_fuel(bounded, 2);
                reveal_with_fuel(size, 2);
                assert forall|x: K| #![trigger lookup(Some(node), x)]
                    lookup(Some(node), x) == lookup(Some(before), x) by {
                    reveal_with_fuel(lookup, 2);
                }
            }
            node
        } else if left_child_red(&node.left) {
            left_left_rotation(node, Ghost(lo), Ghost(hi))
        } else {
            left_right_rotation(node, Ghost(lo), Ghost(hi))
        }
    } else if starts_red(&node.right) && (left_child_red(&node.right) || right_child_red(
        &node.right,
    )) {
        if starts_red(&node.left) {
            let ghost before = node;
            node.left = paint(node.left.take(), NodeColor::Black);
            node.right = paint(node.right.take(), NodeColor::Black);
            node.tag = NodeColor::Red;
            proof {
                reveal_with_fuel(bounded, 2);
                reveal_with_fuel(size, 2);
                assert forall|x: K| #![trigger lookup(Some(node), x)]
                    lookup(Some(node), x) == lookup(Some(before), x) by {
                    reveal_with_fuel(lookup, 2);
                }
            }
            node
        } else if right_child_red(&node.right) {
            right_right_rotation(node, Ghost(lo), Ghost(hi))
        } else {
            right_left_rotation(node, Ghost(lo), Ghost(hi))
        }
    } else {
        node
    }
}

/// Inserts `k` with `v` into `t` unless `k` is already there, and says
/// whether it did. The new entry becomes a red leaf at the place where a
/// search for `k` ends, and every node on the way back up mends what the
/// insertion left below it.
pub(crate) fn insert_into<K: Ord, V>(
    t: Link<K, V, NodeColor>,
    k: K,
    v: V,
    Ghost(lo): Ghost<Option<K>>,
    Ghost(hi): Ghost<Option<K>>,
) -> (r: (Link<K, V, NodeColor>, bool))
    requires
        total_order::<K>(),
        bounded(t, lo, hi),
        within(k, lo, hi),
        black_balanced(t),
        no_red_red(t),
    ensures
        r.1 == (lookup(t, k) is None),
        !r.1 ==> r.0 == t,
        r.1 ==> {
            &&& r.0 == with_entry(t, k, v)
            &&& r.0 is Some
            &&& bounded(r.0, lo, hi)
            &&& size(r.0) == size(t) + 1
            &&& forall|x: K|
                #![trigger lookup(r.0, x)]
                lookup(r.0, x) == if x == k {
                    Some(v)
                } else {
                    lookup(t, x)
                }
            &&& black_balanced(r.0)
            &&& black_height(r.0) == black_height(t)
            &&& nearly_no_red_red(r.0)
            &&& !is_red(t) ==> no_red_red(r.0)
            &&& is_red(t) ==> is_red(r.0)
        },
    decreases t,
{
    proof {
        lemma_order_laws::<K>();
        reveal_with_fuel(black_height, 2);
        reveal_with_fuel(black_balanced, 2);
        reveal_with_fuel(no_red_red, 2);
    }
    match t {
        None => {
            let leaf = Box::new(
                TreeNode { key: k, value: v, tag: NodeColor::Red, left: None, right: None },
            );
            proof {
                reveal_with_fuel(lookup, 2);
                reveal_with_fuel(bounded, 2);
                reveal_with_fuel(size, 2);
            }
            (Some(leaf), true)
        },
        Some(mut node) => {
            let ghost before = node;
            match rank(&k, &node.key) {
                Rank::Same => (Some(node), false),
                Rank::Below => {
                    let (left, fresh) = insert_into(
                        node.left.take(),
                        k,
                        v,
                        Ghost(lo),
                        Ghost(Some(node.key)),
                    );
                    node.left = left;
                    if fresh {
                        let ghost joined = node;
                        let node = insert_balance(node, Ghost(lo), Ghost(hi));
                        proof {
                            assert forall|x: K| #![trigger lookup(Some(node), x)]
                                lookup(Some(node), x) == if x == k {
                                    Some(v)
                                } else {
                                    lookup(Some(before), x)
                                } by {
                                assert(lookup(Some(node), x) == lookup(Some(joined), x));
                                assert(lookup(left, x) == if x == k {
                                    Some(v)
                                } else {
                                    lookup(before.left, x)
                                });
                            }
                        }
                        (Some(node), true)
                    } else {
                        (Some(node), false)
                    }
                },
                Rank::Above => {
                    let (right, fresh) = insert_into(
                        node.right.take(),
                        k,
                        v,
                        Ghost(Some(node.key)),
                        Ghost(hi),
                    );
                    node.right = right;
                    if fresh {
                        let ghost joined = node;
                        let node = insert_balance(node, Ghost(lo), Ghost(hi));
                        proof {
                            assert forall|x: K| #![trigger lookup(Some(node), x)]
                                lookup(Some(node), x) == if x == k {
                                    Some(v)
                                } else {
                                    lookup(Some(before), x)
                                } by {
                                assert(lookup(Some(node), x) == lookup(Some(joined), x));
                                assert(lookup(right, x) == if x == k {
                                    Some(v)
                                } else {
                                    lookup(before.right, x)
                                });
                            }
                        }
                        (Some(node), true)
                    } else {
                        (Some(node), false)
                    }
                },
            }
        },
    }
}

} // verus!

//! Deletion from the subtrees of a red-black tree.
//!
//! Taking a black node out leaves its place one black node short. The
//! functions here hand that shortage upwards as a flag, and the node above
//! mends it with the help of the other child, the sibling of the short one.

use crate::node::{
    bounded, least, lemma_found_within, lemma_widen, lookup, size, within, Link, TreeNode,
};
use crate::order::{key_lt, lemma_order_laws, rank, total_order, Rank};
use crate::red_black::color::{
    black_balanced, black_height, is_red, no_red_red, paint, painted, starts_red, NodeColor,
};
use crate::red_black::rotate::{rotate_left, rotate_right, turned_left, turned_right};
use vstd::prelude::*;

verus! {

/// The black height that the subtree at `node` has once its children have
/// the black height `below`.
pub open spec fn black_height_over<K: Ord, V>(
    node: TreeNode<K, V, NodeColor>,
    below: nat,
) -> nat {
    if node.tag == NodeColor::Black {
        below + 1
    } else {
        below
    }
}

/// The subtree at `node` after its left child, one black node short, has
/// been mended with the help of a black right child, and whether the
/// subtree as a whole is still short.
///
/// Where both children of the sibling are black, the sibling becomes red
/// and `node` black; below a `node` that was black already, the subtree is
/// then short as a whole. Otherwise the sibling has a red child: if only
/// its left child is red, that child becomes black, the sibling red, and
/// the sibling is turned to the right; then the sibling takes the colour of
/// `node`, `node` and the right child of the sibling become black, and
/// `node` is turned to the left.
#[verifier::opaque]
pub open spec fn mended_left_black_sibling<K: Ord, V>(node: Box<TreeNode<K, V, NodeColor>>) -> (
    Box<TreeNode<K, V, NodeColor>>,
    bool,
)
    recommends
        node.right is Some,
{
    let sibling = node.right.unwrap();
    if !is_red(sibling.left) && !is_red(sibling.right) {
        (
            Box::new(
                TreeNode {
                    tag: NodeColor::Black,
                    right: Some(Box::new(TreeNode { tag: NodeColor::Red, ..*sibling })),
                    ..*node
                },
            ),
            node.tag == NodeColor::Black,
        )
    } else {
        let sibling = if !is_red(sibling.right) {
            turned_right(
                Box::new(
                    TreeNode {
                        tag: NodeColor::Red,
                        left: painted(sibling.left, NodeColor::Black),
                        ..*sibling
                    },
                ),
            )
        } else {
            sibling
        };
        let sibling = Box::new(
            TreeNode { tag: node.tag, right: painted(sibling.right, NodeColor::Black), ..*sibling },
        );
        (
            turned_left(Box::new(TreeNode { tag: NodeColor::Black, right: Some(sibling), ..*node })),
            false,
        )
    }
}

/// The mirror image of [`mended_left_black_sibling`].
#[verifier::opaque]
pub open spec fn mended_right_black_sibling<K: Ord, V>(node: Box<TreeNode<K, V, NodeColor>>) -> (
    Box<TreeNode<K, V, NodeColor>>,
    bool,
)
    recommends
        node.left is Some,
{
    let sibling = node.left.unwrap();
    if !is_red(sibling.right) && !is_red(sibling.left) {
        (
            Box::new(
                TreeNode {
                    tag: NodeColor::Black,
                    left: Some(Box::new(TreeNode { tag: NodeColor::Red, ..*sibling })),
                    ..*node
                },
            ),
            node.tag == NodeColor::Black,
        )
    } else {
        let sibling = if !is_red(sibling.left) {
            turned_left(
                Box::new(
                    TreeNode {
                        tag: NodeColor::Red,
                        right: painted(sibling.right, NodeColor::Black),
                        ..*sibling
                    },
                ),
            )
        } else {
            sibling
        };
        let sibling = Box::new(
            TreeNode { tag: node.tag, left: painted(sibling.left, NodeColor::Black), ..*sibling },
        );
        (
            turned_right(Box::new(TreeNode { tag: NodeColor::Black, left: Some(sibling), ..*node })),
            false,
        )
    }
}

/// The subtree at `node` after its left child, one black node short, has
/// been mended, and whether the subtree as a whole is still short. A red
/// sibling becomes black, `node` red, and `node` is turned to the left;
/// what was `node` then has a black sibling for its short child and is
/// mended below the new top.
#[verifier::opaque]
pub open spec fn mended_left<K: Ord, V>(node: Box<TreeNode<K, V, NodeColor>>) -> (
    Box<TreeNode<K, V, NodeColor>>,
    bool,
) {
    if is_red(node.right) {
        let top = turned_left(
            Box::new(
                TreeNode {
                    tag: NodeColor::Red,
                    right: painted(node.right, NodeColor::Black),
                    ..*node
                },
            ),
        );
        (
            Box::new(
                TreeNode { left: Some(mended_left_black_sibling(top.left.unwrap()).0), ..*top },
            ),
            false,
        )
    } else {
        mended_left_black_sibling(node)
    }
}

/// The mirror image of [`mended_left`].
#[verifier::opaque]
pub open spec fn mended_right<K: Ord, V>(node: Box<TreeNode<K, V, NodeColor>>) -> (
    Box<TreeNode<K, V, NodeColor>>,
    bool,
) {
    if is_red(node.left) {
        let top = turned_right(
            Box::new(
                TreeNode {
                    tag: NodeColor::Red,
                    left: painted(node.left, NodeColor::Black),
                    ..*node
                },
            ),
        );
        (
            Box::new(
                TreeNode { right: Some(mended_right_black_sibling(top.right.unwrap()).0), ..*top },
            ),
            false,
        )
    } else {
        mended_right_black_sibling(node)
    }
}

/// Mends a left child that is one black node short, where the right child,
/// its sibling, is black.
///
/// Where both children of the sibling are black, the sibling becomes red; a
/// red `node` then becomes black and all is mended, while below a black
/// `node` the whole subtree is now short. Otherwise the sibling has a red
/// child: if only its left child is red, the sibling is turned to the right
/// first; then the sibling takes the colour of `node`, `node` and the
/// sibling's right child become black, and `node` is turned to the left.
pub(crate) fn mend_left_black_sibling<K: Ord, V>(
    mut node: Box<TreeNode<K, V, NodeColor>>,
    Ghost(lo): Ghost<Option<K>>,
    Ghost(hi): Ghost<Option<K>>,
) -> (r: (Box<TreeNode<K, V, NodeColor>>, bool))
    requires
        total_order::<K>(),
        bounded(Some(node), lo, hi),
        black_balanced(node.left),
        black_balanced(node.right),
        no_red_red(node.left),
        no_red_red(node.right),
        black_height(node.left) + 1 == black_height(node.right),
        !is_red(node.left),
        !is_red(node.right),
    ensures
        r == mended_left_black_sibling(node),
        bounded(Some(r.0), lo, hi),
        forall|x: K|
            #![trigger lookup(Some(r.0), x)]
            lookup(Some(r.0), x) == lookup(Some(node), x),
        size(Some(r.0)) == size(Some(node)),
        black_balanced(Some(r.0)),
        no_red_red(Some(r.0)),
        node.tag == NodeColor::Black ==> r.0.tag == NodeColor::Black,
        r.1 ==> node.tag == NodeColor::Black && black_height(Some(r.0)) == black_height(
            node.right,
        ),
        !r.1 ==> black_height(Some(r.0)) == black_height_over(*node, black_height(node.right)),
{
    proof {
        reveal(mended_left_black_sibling);
        reveal(turned_left);
        reveal(turned_right);
        lemma_order_laws::<K>();
        reveal_with_fuel(black_height, 3);
        reveal_with_fuel(black_balanced, 3);
        reveal_with_fuel(no_red_red, 3);
        reveal_with_fuel(bounded, 3);
        reveal_with_fuel(size, 3);
    }
    let ghost before = node;
    let mut sibling = node.right.take().unwrap();
    if !starts_red(&sibling.left) && !starts_red(&sibling.right) {
        sibling.tag = NodeColor::Red;
        node.right = Some(sibling);
        let short = match node.tag {
            NodeColor::Red => {
                node.tag = NodeColor::Black;
                false
            },
            NodeColor::Black => true,
        };
        proof {
            assert forall|x: K| #![trigger lookup(Some(node), x)]
                lookup(Some(node), x) == lookup(Some(before), x) by {
                reveal_with_fuel(lookup, 3);
            }
        }
        (node, short)
    } else {
        if !starts_red(&sibling.right) {
            let ghost old_sibling = sibling;
            sibling.left = paint(sibling.left.take(), NodeColor::Black);
            sibling.tag = NodeColor::Red;
            let ghost repainted = sibling;
            proof {
                assert forall|x: K| #![trigger lookup(Some(sibling), x)]
                    lookup(Some(sibling), x) == lookup(Some(old_sibling), x) by {
                    reveal_with_fuel(lookup, 3);
                }
            }
            sibling = rotate_right(sibling, Ghost(Some(node.key)), Ghost(hi));
            proof {
                assert forall|x: K| #![trigger lookup(Some(sibling), x)]
                    lookup(Some(sibling), x) == lookup(before.right, x) by {
                    assert(lookup(Some(sibling), x) == lookup(Some(repainted), x));
                }
            }
        }
        let ghost turned = sibling;
        sibling.tag = node.tag;
        node.tag = NodeColor::Black;
        sibling.right = paint(sibling.right.take(), NodeColor::Black);
        node.right = Some(sibling);
        proof {
            assert forall|x: K| #![trigger lookup(Some(sibling), x)]
                lookup(Some(sibling), x) == lookup(Some(turned), x) by {
                reveal_with_fuel(lookup, 3);
            }
            assert forall|x: K| #![trigger lookup(Some(node), x)]
                lookup(Some(node), x) == lookup(Some(before), x) by {
                assert(lookup(Some(sibling), x) == lookup(Some(turned), x));
                assert(lookup(Some(turned), x) == lookup(before.right, x));
            }
        }
        let ghost joined = node;
        let top = rotate_left(node, Ghost(lo), Ghost(hi));
        proof {
            assert forall|x: K| #![trigger lookup(Some(top), x)]
                lookup(Some(top), x) == lookup(Some(before), x) by {
                assert(lookup(Some(top), x) == lookup(Some(joined), x));
            }
        }
        (top, false)
    }
}

/// The mirror image of [`mend_left_black_sibling`]: mends a right child that
/// is one black node short, where the left child is black.
pub(crate) fn mend_right_black_sibling<K: Ord, V>(
    mut node: Box<TreeNode<K, V, NodeColor>>,
    Ghost(lo): Ghost<Option<K>>,
    Ghost(hi): Ghost<Option<K>>,
) -> (r: (Box<TreeNode<K, V, NodeColor>>, bool))
    requires
        total_order::<K>(),
        bounded(Some(node), lo, hi),
        black_balanced(node.right),
        black_balanced(node.left),
        no_red_red(node.right),
        no_red_red(node.left),
        black_height(node.right) + 1 == black_height(node.left),
        !is_red(node.right),
        !is_red(node.left),
    ensures
        r == mended_right_black_sibling(node),
        bounded(Some(r.0), lo, hi),
        forall|x: K|
            #![trigger lookup(Some(r.0), x)]
            lookup(Some(r.0), x) == lookup(Some(node), x),
        size(Some(r.0)) == size(Some(node)),
        black_balanced(Some(r.0)),
        no_red_red(Some(r.0)),
        node.tag == NodeColor::Black ==> r.0.tag == NodeColor::Black,
        r.1 ==> node.tag == NodeColor::Black && black_height(Some(r.0)) == black_height(
            node.left,
        ),
        !r.1 ==> black_height(Some(r.0)) == black_height_over(*node, black_height(node.left)),
{
    proof {
        reveal(mended_right_black_sibling);
        reveal(turned_left);
        reveal(turned_right);
        lemma_order_laws::<K>();
        reveal_with_fuel(black_height, 3);
        reveal_with_fuel(black_balanced, 3);
        reveal_with_fuel(no_red_red, 3);
        reveal_with_fuel(bounded, 3);
        reveal_with_fuel(size, 3);
    }
    let ghost before = node;
    let mut sibling = node.left.take().unwrap();
    if !starts_red(&sibling.right) && !starts_red(&sibling.left) {
        sibling.tag = NodeColor::Red;
        node.left = Some(sibling);
        let short = match node.tag {
            NodeColor::Red => {
                node.tag = NodeColor::Black;
                false
            },
            NodeColor::Black => true,
        };
        proof {
            assert forall|x: K| #![trigger lookup(Some(node), x)]
                lookup(Some(node), x) == lookup(Some(before), x) by {
                reveal_with_fuel(lookup, 3);
            }
        }
        (node, short)
    } else {
        if !starts_red(&sibling.left) {
            let ghost old_sibling = sibling;
            sibling.right = paint(sibling.right.take(), NodeColor::Black);
            sibling.tag = NodeColor::Red;
            let ghost repainted = sibling;
            proof {
                assert forall|x: K| #![trigger lookup(Some(sibling), x)]
                    lookup(Some(sibling), x) == lookup(Some(old_sibling), x) by {
                    reveal_with_fuel(lookup, 3);
                }
            }
            sibling = rotate_left(sibling, Ghost(lo), Ghost(Some(node.key)));
            proof {
                assert forall|x: K| #![trigger lookup(Some(sibling), x)]
                    lookup(Some(sibling), x) == lookup(before.left, x) by {
                    assert(lookup(Some(sibling), x) == lookup(Some(repainted), x));
                }
            }
        }
        let ghost turned = sibling;
        sibling.tag = node.tag;
        node.tag = NodeColor::Black;
        sibling.left = paint(sibling.left.take(), NodeColor::Black);
        node.left = Some(sibling);
        proof {
            assert forall|x: K| #![trigger lookup(Some(sibling), x)]
                lookup(Some(sibling), x) == lookup(Some(turned), x) by {
                reveal_with_fuel(lookup, 3);
            }
            assert forall|x: K| #![trigger lookup(Some(node), x)]
                lookup(Some(node), x) == lookup(Some(before), x) by {
                assert(lookup(Some(sibling), x) == lookup(Some(turned), x));
                assert(lookup(Some(turned), x) == lookup(before.left, x));
            }
        }
        let ghost joined = node;
        let top = rotate_right(node, Ghost(lo), Ghost(hi));
        proof {
            assert forall|x: K| #![trigger lookup(Some(top), x)]
                lookup(Some(top), x) == lookup(Some(before), x) by {
                assert(lookup(Some(top), x) == lookup(Some(joined), x));
            }
        }
        (top, false)
    }
}

/// Mends a left child that is one black node short. A red sibling becomes
/// black, `node` red, and `node` is turned to the left; that gives the short
/// child a black sibling, and [`mend_left_black_sibling`] does the rest
/// below the new top node. The flag says whether the subtree as a whole is
/// still one black node short.
pub(crate) fn mend_left<K: Ord, V>(
    mut node: Box<TreeNode<K, V, NodeColor>>,
    Ghost(lo): Ghost<Option<K>>,
    Ghost(hi): Ghost<Option<K>>,
) -> (r: (Box<TreeNode<K, V, NodeColor>>, bool))
    requires
        total_order::<K>(),
        bounded(Some(node), lo, hi),
        black_balanced(node.left),
        black_balanced(node.right),
        no_red_red(node.left),
        no_red_red(node.right),
        black_height(node.left) + 1 == black_height(node.right),
        !is_red(node.left),
        is_red(node.right) ==> node.tag == NodeColor::Black,
    ensures
        r == mended_left(node),
        bounded(Some(r.0), lo, hi),
        forall|x: K|
            #![trigger lookup(Some(r.0), x)]
            lookup(Some(r.0), x) == lookup(Some(node), x),
        size(Some(r.0)) == size(Some(node)),
        black_balanced(Some(r.0)),
        no_red_red(Some(r.0)),
        node.tag == NodeColor::Black ==> r.0.tag == NodeColor::Black,
        r.1 ==> node.tag == NodeColor::Black && black_height(Some(r.0)) == black_height(
            node.right,
        ),
        !r.1 ==> black_height(Some(r.0)) == black_height_over(*node, black_height(node.right)),
{
    proof {
        reveal(mended_left);
        reveal(turned_left);
    }
    if starts_red(&node.right) {
        proof {
            lemma_order_laws::<K>();
            reveal_with_fuel(black_height, 3);
            reveal_with_fuel(black_balanced, 3);
            reveal_with_fuel(no_red_red, 3);
            reveal_with_fuel(bounded, 3);
            reveal_with_fuel(size, 3);
        }
        let ghost before = node;
        node.right = paint(node.right.take(), NodeColor::Black);
        node.tag = NodeColor::Red;
        proof {
            assert forall|x: K| #![trigger lookup(Some(node), x)]
                lookup(Some(node), x) == lookup(Some(before), x) by {
                reveal_with_fuel(lookup, 3);
            }
        }
        let ghost repainted = node;
        let mut top = rotate_left(node, Ghost(lo), Ghost(hi));
        let ghost turned = top;
        let low = top.left.take().unwrap();
        let (low, _) = mend_left_black_sibling(low, Ghost(lo), Ghost(Some(top.key)));
        top.left = Some(low);
        proof {
            assert forall|x: K| #![trigger lookup(Some(top), x)]
                lookup(Some(top), x) == lookup(Some(before), x) by {
                assert(lookup(Some(low), x) == lookup(turned.left, x));
                assert(lookup(Some(turned), x) == lookup(Some(repainted), x));
            }
        }
        (top, false)
    } else {
        mend_left_black_sibling(node, Ghost(lo), Ghost(hi))
    }
}

/// The mirror image of [`mend_left`]: mends a right child that is
/// one black node short.
pub(crate) fn mend_right<K: Ord, V>(
    mut node: Box<TreeNode<K, V, NodeColor>>,
    Ghost(lo): Ghost<Option<K>>,
    Ghost(hi): Ghost<Option<K>>,
) -> (r: (Box<TreeNode<K, V, NodeColor>>, bool))
    requires
        total_order::<K>(),
        bounded(Some(node), lo, hi),
        black_balanced(node.left),
        black_balanced(node.right),
        no_red_red(node.left),
        no_red_red(node.right),
        black_height(node.right) + 1 == black_height(node.left),
        !is_red(node.right),
        is_red(node.left) ==> node.tag == NodeColor::Black,
    ensures
        r == mended_right(node),
        bounded(Some(r.0), lo, hi),
        forall|x: K|
            #![trigger lookup(Some(r.0), x)]
            lookup(Some(r.0), x) == lookup(Some(node), x),
        size(Some(r.0)) == size(Some(node)),
        black_balanced(Some(r.0)),
        no_red_red(Some(r.0)),
        node.tag == NodeColor::Black ==> r.0.tag == NodeColor::Black,
        r.1 ==> node.tag == NodeColor::Black && black_height(Some(r.0)) == black_height(
            node.left,
        ),
        !r.1 ==> black_height(Some(r.0)) == black_height_over(*node, black_height(node.left)),
{
    proof {
        reveal(mended_right);
        reveal(turned_right);
    }
    if starts_red(&node.left) {
        proof {
            lemma_order_laws::<K>();
            reveal_with_fuel(black_height, 3);
            reveal_with_fuel(black_balanced, 3);
            reveal_with_fuel(no_red_red, 3);
            reveal_with_fuel(bounded, 3);
            reveal_with_fuel(size, 3);
        }
        let ghost before = node;
        node.left = paint(node.left.take(), NodeColor::Black);
        node.tag = NodeColor::Red;
        proof {
            assert forall|x: K| #![trigger lookup(Some(node), x)]
                lookup(Some(node), x) == lookup(Some(before), x) by {
                reveal_with_fuel(lookup, 3);
            }
        }
        let ghost repainted = node;
        let mut top = rotate_right(node, Ghost(lo), Ghost(hi));
        let ghost turned = top;
        let low = top.right.take().unwrap();
        let (low, _) = mend_right_black_sibling(low, Ghost(Some(top.key)), Ghost(hi));
        top.right = Some(low);
        proof {
            assert forall|x: K| #![trigger lookup(Some(top), x)]
                lookup(Some(top), x) == lookup(Some(before), x) by {
                assert(lookup(Some(low), x) == lookup(turned.right, x));
                assert(lookup(Some(turned), x) == lookup(Some(repainted), x));
            }
        }
        (top, false)
    } else {
        mend_right_black_sibling(node, Ghost(lo), Ghost(hi))
    }
}

/// One of the two sides of a node.
#[derive(Clone, Copy, PartialEq, Eq, Structural, Debug)]
pub enum Side {
    Left,
    Right,
}

/// The child of `node` on the given side.
pub open spec fn child_on<K: Ord, V>(
    node: TreeNode<K, V, NodeColor>,
    side: Side,
) -> Link<K, V, NodeColor> {
    match side {
        Side::Left => node.left,
        Side::Right => node.right,
    }
}

/// The child of `node` on the other side.
pub open spec fn sibling_of<K: Ord, V>(
    node: TreeNode<K, V, NodeColor>,
    side: Side,
) -> Link<K, V, NodeColor> {
    match side {
        Side::Left => node.right,
        Side::Right => node.left,
    }
}

/// The subtree at `node` after the child on the side `short`, one black
/// node short, has been mended, and whether the subtree as a whole is still
/// short.
pub open spec fn delete_balanced<K: Ord, V>(
    node: Box<TreeNode<K, V, NodeColor>>,
    short: Side,
) -> (Box<TreeNode<K, V, NodeColor>>, bool) {
    match short {
        Side::Left => mended_left(node),
        Side::Right => mended_right(node),
    }
}

/// Mends below `node` a child that a deletion has left one black node
/// short. The sibling of the short child decides what is done: a red
/// sibling is first turned into a black one by a rotation; below a black
/// sibling either a recolouring hands the shortage up to `node`, or one or
/// two rotations make up for it. The flag says whether the subtree as a
/// whole is still one black node short.
pub(crate) fn delete_balance<K: Ord, V>(
    node: Box<TreeNode<K, V, NodeColor>>,
    short: Side,
    Ghost(lo): Ghost<Option<K>>,
    Ghost(hi): Ghost<Option<K>>,
) -> (r: (Box<TreeNode<K, V, NodeColor>>, bool))
    requires
        total_order::<K>(),
        bounded(Some(node), lo, hi),
        black_balanced(node.left),
        black_balanced(node.right),
        no_red_red(node.left),
        no_red_red(node.right),
        black_height(child_on(*node, short)) + 1 == black_height(sibling_of(*node, short)),
        !is_red(child_on(*node, short)),
        is_red(sibling_of(*node, short)) ==> node.tag == NodeColor::Black,
    ensures
        r == delete_balanced(node, short),
        bounded(Some(r.0), lo, hi),
        forall|x: K|
            #![trigger lookup(Some(r.0), x)]
            lookup(Some(r.0), x) == lookup(Some(node), x),
        size(Some(r.0)) == size(Some(node)),
        black_balanced(Some(r.0)),
        no_red_red(Some(r.0)),
        node.tag == NodeColor::Black ==> r.0.tag == NodeColor::Black,
        r.1 ==> node.tag == NodeColor::Black && black_height(Some(r.0)) == black_height(
            sibling_of(*node, short),
        ),
        !r.1 ==> black_height(Some(r.0)) == black_height_over(
            *node,
            black_height(sibling_of(*node, short)),
        ),
{
    match short {
        Side::Left => mend_left(node, Ghost(lo), Ghost(hi)),
        Side::Right => mend_right(node, Ghost(lo), Ghost(hi)),
    }
}

/// The child that takes the place of a node with at most one child when
/// the node is taken out, and whether that leaves the place one black node
/// short. In place of a black node a red child becomes black; without a red
/// child the place is short.
pub open spec fn spliced<K: Ord, V>(node: Box<TreeNode<K, V, NodeColor>>) -> (
    Link<K, V, NodeColor>,
    bool,
) {
    let child = if node.left is Some {
        node.left
    } else {
        node.right
    };
    if node.tag == NodeColor::Red {
        (child, false)
    } else if is_red(child) {
        (painted(child, NodeColor::Black), false)
    } else {
        (child, true)
    }
}

/// The subtree at `node` with the child on the side `side` replaced by
/// `child`, and mended where `short` says that this child is one black
/// node short; with it, whether the subtree as a whole is short.
pub open spec fn rejoined<K: Ord, V>(
    node: Box<TreeNode<K, V, NodeColor>>,
    side: Side,
    child: Link<K, V, NodeColor>,
    short: bool,
) -> (Link<K, V, NodeColor>, bool) {
    let joined = match side {
        Side::Left => Box::new(TreeNode { left: child, ..*node }),
        Side::Right => Box::new(TreeNode { right: child, ..*node }),
    };
    if short {
        (Some(delete_balanced(joined, side).0), delete_balanced(joined, side).1)
    } else {
        (Some(joined), false)
    }
}

/// The subtree at `node` after the removal of its smallest entry, and
/// whether it has become one black node short. The node at the end of the
/// left edge is spliced out, and each node on the way from there back to
/// the top mends what has become short below it.
pub open spec fn without_least<K: Ord, V>(node: Box<TreeNode<K, V, NodeColor>>) -> (
    Link<K, V, NodeColor>,
    bool,
)
    decreases node,
{
    match node.left {
        None => spliced(node),
        Some(left) => rejoined(node, Side::Left, without_least(left).0, without_least(left).1),
    }
}

/// The subtree `t` after the removal of a key that it holds, and whether it
/// has become one black node short. A node with at most one child is
/// spliced out. A node with two children takes over the smallest entry of
/// its right subtree, which is removed there, and keeps its colour. Each
/// node on the way from the place of the change back to the top mends what
/// has become short below it.
pub open spec fn without_entry<K: Ord, V>(t: Link<K, V, NodeColor>, k: K) -> (
    Link<K, V, NodeColor>,
    bool,
)
    decreases t,
{
    match t {
        None => (None, false),
        Some(n) => if k == n.key {
            if n.left is None || n.right is None {
                spliced(n)
            } else {
                let right = n.right.unwrap();
                rejoined(
                    Box::new(TreeNode { key: least(right).0, value: least(right).1, ..*n }),
                    Side::Right,
                    without_least(right).0,
                    without_least(right).1,
                )
            }
        } else if key_lt(k, n.key) {
            rejoined(n, Side::Left, without_entry(n.left, k).0, without_entry(n.left, k).1)
        } else {
            rejoined(n, Side::Right, without_entry(n.right, k).0, without_entry(n.right, k).1)
        },
    }
}

/// Takes a node with at most one child out of the tree and puts that child
/// in its place. Where the node was black, a red child becomes black to
/// make up for it; without a red child the place is now one black node
/// short, and the flag says so.
pub(crate) fn splice_out<K: Ord, V>(
    node: Box<TreeNode<K, V, NodeColor>>,
    Ghost(lo): Ghost<Option<K>>,
    Ghost(hi): Ghost<Option<K>>,
) -> (r: (Link<K, V, NodeColor>, K, V, bool))
    requires
        total_order::<K>(),
        bounded(Some(node), lo, hi),
        black_balanced(Some(node)),
        no_red_red(Some(node)),
        node.left is None || node.right is None,
    ensures
        (r.0, r.3) == spliced(node),
        r.1 == node.key,
        r.2 == node.value,
        bounded(r.0, lo, hi),
        node.left is None ==> bounded(r.0, Some(node.key), hi),
        forall|x: K|
            #![trigger lookup(r.0, x)]
            lookup(r.0, x) == if x == node.key {
                None
            } else {
                lookup(Some(node), x)
            },
        size(r.0) + 1 == size(Some(node)),
        black_balanced(r.0),
        no_red_red(r.0),
        !is_red(Some(node)) ==> !is_red(r.0),
        r.3 ==> !is_red(Some(node)) && black_height(r.0) + 1 == black_height(Some(node)),
        !r.3 ==> black_height(r.0) == black_height(Some(node)),
{
    proof {
        lemma_order_laws::<K>();
        reveal_with_fuel(black_height, 3);
        reveal_with_fuel(black_balanced, 3);
        reveal_with_fuel(no_red_red, 3);
        reveal_with_fuel(bounded, 3);
        reveal_with_fuel(size, 3);
        reveal_with_fuel(lookup, 3);
    }
    let ghost before = node;
    let TreeNode { key, value, tag, left, right } = *node;
    let child = if left.is_some() {
        left
    } else {
        right
    };
    proof {
        if before.left is Some {
            lemma_widen(child, lo, Some(key), lo, hi);
        } else {
            lemma_widen(child, Some(key), hi, lo, hi);
        }
        assert forall|x: K| #![trigger lookup(child, x)]
            lookup(child, x) == if x == key {
                None
            } else {
                lookup(Some(before), x)
            } by {
            if lookup(child, x) is Some {
                if before.left is Some {
                    lemma_found_within(child, lo, Some(key), x);
                } else {
                    lemma_found_within(child, Some(key), hi, x);
                }
            }
        }
    }
    match tag {
        NodeColor::Red => (child, key, value, false),
        NodeColor::Black => {
            if starts_red(&child) {
                let blackened = paint(child, NodeColor::Black);
                proof {
                    assert forall|x: K| #![trigger lookup(blackened, x)]
                        lookup(blackened, x) == lookup(child, x) by {}
                }
                (blackened, key, value, false)
            } else {
                (child, key, value, true)
            }
        },
    }
}

/// Takes the entry with the smallest key out of the subtree that starts at
/// `node`, and mends on the way back up what that leaves short.
pub(crate) fn delete_min<K: Ord, V>(
    mut node: Box<TreeNode<K, V, NodeColor>>,
    Ghost(lo): Ghost<Option<K>>,
    Ghost(hi): Ghost<Option<K>>,
) -> (r: (Link<K, V, NodeColor>, K, V, bool))
    requires
        total_order::<K>(),
        bounded(Some(node), lo, hi),
        black_balanced(Some(node)),
        no_red_red(Some(node)),
    ensures
        (r.0, r.3) == without_least(node),
        (r.1, r.2) == least(node),
        within(r.1, lo, hi),
        lookup(Some(node), r.1) == Some(r.2),
        bounded(r.0, Some(r.1), hi),
        forall|x: K|
            #![trigger lookup(r.0, x)]
            lookup(r.0, x) == if x == r.1 {
                None
            } else {
                lookup(Some(node), x)
            },
        size(r.0) + 1 == size(Some(node)),
        black_balanced(r.0),
        no_red_red(r.0),
        !is_red(Some(node)) ==> !is_red(r.0),
        r.3 ==> !is_red(Some(node)) && black_height(r.0) + 1 == black_height(Some(node)),
        !r.3 ==> black_height(r.0) == black_height(Some(node)),
    decreases node,
{
    proof {
        lemma_order_laws::<K>();
        reveal_with_fuel(lookup, 2);
        reveal_with_fuel(size, 2);
        reveal_with_fuel(bounded, 2);
        reveal_with_fuel(black_height, 2);
        reveal_with_fuel(black_balanced, 2);
        reveal_with_fuel(no_red_red, 2);
    }
    let ghost before = node;
    match node.left.take() {
        None => {
            proof {
                assert forall|x: K| lookup(Some(node), x) == lookup(Some(before), x) by {}
            }
            splice_out(node, Ghost(lo), Ghost(hi))
        },
        Some(left) => {
            let (rest, min_key, min_value, short) = delete_min(
                left,
                Ghost(lo),
                Ghost(Some(node.key)),
            );
            node.left = rest;
            let ghost joined = node;
            let (node, short) = if short {
                delete_balance(node, Side::Left, Ghost(Some(min_key)), Ghost(hi))
            } else {
                (node, false)
            };
            proof {
                assert forall|x: K| #![trigger lookup(Some(node), x)]
                    lookup(Some(node), x) == if x == min_key {
                        None
                    } else {
                        lookup(Some(before), x)
                    } by {
                    assert(lookup(Some(node), x) == lookup(Some(joined), x));
                    assert(lookup(rest, x) == if x == min_key {
                        None
                    } else {
                        lookup(before.left, x)
                    });
                }
            }
            (Some(node), min_key, min_value, short)
        },
    }
}

/// Takes the entry with key `k` out of `t`, if there is one. A node with at
/// most one child is spliced out; a node with two children takes over the
/// entry with the next larger key, whose node is spliced out of the right
/// subtree instead, and keeps its own colour. What that leaves short is
/// mended on the way back up; the flag says whether `t` as a whole has
/// become one black node short.
pub(crate) fn delete<K: Ord, V>(
    t: Link<K, V, NodeColor>,
    k: &K,
    Ghost(lo): Ghost<Option<K>>,
    Ghost(hi): Ghost<Option<K>>,
) -> (r: (Link<K, V, NodeColor>, Option<(K, V)>, bool))
    requires
        total_order::<K>(),
        bounded(t, lo, hi),
        black_balanced(t),
        no_red_red(t),
    ensures
        match r.1 {
            None => lookup(t, *k) is None && r.0 == t && !r.2,
            Some(gone) => {
                &&& (r.0, r.2) == without_entry(t, *k)
                &&& gone.0 == *k
                &&& lookup(t, *k) == Some(gone.1)
                &&& bounded(r.0, lo, hi)
                &&& size(r.0) + 1 == size(t)
                &&& forall|x: K|
                    #![trigger lookup(r.0, x)]
                    lookup(r.0, x) == if x == *k {
                        None
                    } else {
                        lookup(t, x)
                    }
                &&& black_balanced(r.0)
                &&& no_red_red(r.0)
                &&& !is_red(t) ==> !is_red(r.0)
                &&& r.2 ==> !is_red(t) && black_height(r.0) + 1 == black_height(t)
                &&& !r.2 ==> black_height(r.0) == black_height(t)
            },
        },
    decreases t,
{
    proof {
        lemma_order_laws::<K>();
        reveal_with_fuel(lookup, 2);
        reveal_with_fuel(size, 2);
        reveal_with_fuel(bounded, 2);
        reveal_with_fuel(black_height, 2);
        reveal_with_fuel(black_balanced, 2);
        reveal_with_fuel(no_red_red, 2);
    }
    match t {
        None => (None, None, false),
        Some(mut node) => {
            let ghost before = node;
            match rank(k, &node.key) {
                Rank::Below => {
                    let (left, gone, short) = delete(
                        node.left.take(),
                        k,
                        Ghost(lo),
                        Ghost(Some(node.key)),
                    );
                    node.left = left;
                    match gone {
                        None => (Some(node), None, false),
                        Some(entry) => {
                            let ghost joined = node;
                            let (node, short) = if short {
                                delete_balance(node, Side::Left, Ghost(lo), Ghost(hi))
                            } else {
                                (node, false)
                            };
                            proof {
                                assert forall|x: K| #![trigger lookup(Some(node), x)]
                                    lookup(Some(node), x) == if x == *k {
                                        None
                                    } else {
                                        lookup(Some(before), x)
                                    } by {
                                    assert(lookup(Some(node), x) == lookup(Some(joined), x));
                                    assert(lookup(left, x) == if x == *k {
                                        None
                                    } else {
                                        lookup(before.left, x)
                                    });
                                }
                            }
                            (Some(node), Some(entry), short)
                        },
                    }
                },
                Rank::Above => {
                    let (right, gone, short) = delete(
                        node.right.take(),
                        k,
                        Ghost(Some(node.key)),
                        Ghost(hi),
                    );
                    node.right = right;
                    match gone {
                        None => (Some(node), None, false),
                        Some(entry) => {
                            let ghost joined = node;
                            let (node, short) = if short {
                                delete_balance(node, Side::Right, Ghost(lo), Ghost(hi))
                            } else {
                                (node, false)
                            };
                            proof {
                                assert forall|x: K| #![trigger lookup(Some(node), x)]
                                    lookup(Some(node), x) == if x == *k {
                                        None
                                    } else {
                                        lookup(Some(before), x)
                                    } by {
                                    assert(lookup(Some(node), x) == lookup(Some(joined), x));
                                    assert(lookup(right, x) == if x == *k {
                                        None
                                    } else {
                                        lookup(before.right, x)
                                    });
                                }
                            }
                            (Some(node), Some(entry), short)
                        },
                    }
                },
                Rank::Same => {
                    if node.left.is_none() || node.right.is_none() {
                        let (rest, key, value, short) = splice_out(node, Ghost(lo), Ghost(hi));
                        (rest, Some((key, value)), short)
                    } else {
                        let right = node.right.take().unwrap();
                        let (rest, mut key, mut value, short) = delete_min(
                            right,
                            Ghost(Some(node.key)),
                            Ghost(hi),
                        );
                        let ghost next = key;
                        std::mem::swap(&mut node.key, &mut key);
                        std::mem::swap(&mut node.value, &mut value);
                        node.right = rest;
                        proof {
                            lemma_widen(node.left, lo, Some(key), lo, Some(next));
                        }
                        let ghost joined = node;
                        let (node, short) = if short {
                            delete_balance(node, Side::Right, Ghost(lo), Ghost(hi))
                        } else {
                            (node, false)
                        };
                        proof {
                            assert forall|x: K| #![trigger lookup(Some(node), x)]
                                lookup(Some(node), x) == if x == key {
                                    None
                                } else {
                                    lookup(Some(before), x)
                                } by {
                                assert(lookup(Some(node), x) == lookup(Some(joined), x));
                                assert(lookup(rest, x) == if x == next {
                                    None
                                } else {
                                    lookup(before.right, x)
                                });
                                if lookup(rest, x) is Some {
                                    lemma_found_within(rest, Some(next), hi, x);
                                }
                                if lookup(before.left, x) is Some {
                                    lemma_found_within(before.left, lo, Some(key), x);
                                }
                            }
                        }
                        (Some(node), Some((key, value)), short)
                    }
                },
            }
        },
    }
}

} // verus!

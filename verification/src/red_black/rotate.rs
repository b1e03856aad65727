//! The rotations of a red-black tree.

use crate::node::{bounded, lookup, size, TreeNode};
use crate::order::{lemma_order_laws, total_order};
use crate::red_black::color::NodeColor;
use vstd::prelude::*;

verus! {

/// The subtree after the right child of `node` has come up and `node` has
/// gone down to its left. Colours stay with their nodes.
#[verifier::opaque]
pub open spec fn turned_left<K: Ord, V>(node: Box<TreeNode<K, V, NodeColor>>) -> Box<
    TreeNode<K, V, NodeColor>,
>
    recommends
        node.right is Some,
{
    let pivot = node.right.unwrap();
    Box::new(TreeNode { left: Some(Box::new(TreeNode { right: pivot.left, ..*node })), ..*pivot })
}

/// The subtree after the left child of `node` has come up and `node` has
/// gone down to its right. Colours stay with their nodes.
#[verifier::opaque]
pub open spec fn turned_right<K: Ord, V>(node: Box<TreeNode<K, V, NodeColor>>) -> Box<
    TreeNode<K, V, NodeColor>,
>
    recommends
        node.left is Some,
{
    let pivot = node.left.unwrap();
    Box::new(TreeNode { right: Some(Box::new(TreeNode { left: pivot.right, ..*node })), ..*pivot })
}

/// The subtree after `node` has turned to the right, with the node that
/// came up in black and `node` in red.
#[verifier::opaque]
pub open spec fn left_left_rotated<K: Ord, V>(node: Box<TreeNode<K, V, NodeColor>>) -> Box<
    TreeNode<K, V, NodeColor>,
>
    recommends
        node.left is Some,
{
    Box::new(
        TreeNode {
            tag: NodeColor::Black,
            ..*turned_right(Box::new(TreeNode { tag: NodeColor::Red, ..*node }))
        },
    )
}

/// The subtree after `node` has turned to the left, with the node that came
/// up in black and `node` in red.
#[verifier::opaque]
pub open spec fn right_right_rotated<K: Ord, V>(node: Box<TreeNode<K, V, NodeColor>>) -> Box<
    TreeNode<K, V, NodeColor>,
>
    recommends
        node.right is Some,
{
    Box::new(
        TreeNode {
            tag: NodeColor::Black,
            ..*turned_left(Box::new(TreeNode { tag: NodeColor::Red, ..*node }))
        },
    )
}

/// The subtree after the left child of `node` has turned to the left and
/// `node` then to the right, with the node that came up in black and `node`
/// in red.
#[verifier::opaque]
pub open spec fn left_right_rotated<K: Ord, V>(node: Box<TreeNode<K, V, NodeColor>>) -> Box<
    TreeNode<K, V, NodeColor>,
>
    recommends
        node.left is Some,
        node.left.unwrap().right is Some,
{
    left_left_rotated(Box::new(TreeNode { left: Some(turned_left(node.left.unwrap())), ..*node }))
}

/// The subtree after the right child of `node` has turned to the right and
/// `node` then to the left, with the node that came up in black and `node`
/// in red.
#[verifier::opaque]
pub open spec fn right_left_rotated<K: Ord, V>(node: Box<TreeNode<K, V, NodeColor>>) -> Box<
    TreeNode<K, V, NodeColor>,
>
    recommends
        node.right is Some,
        node.right.unwrap().left is Some,
{
    right_right_rotated(
        Box::new(TreeNode { right: Some(turned_right(node.right.unwrap())), ..*node }),
    )
}

/// Turns the subtree at `node` to the left: the right child comes up and
/// `node` becomes its left child. Colours stay with their nodes.
pub(crate) fn rotate_left<K: Ord, V>(
    mut node: Box<TreeNode<K, V, NodeColor>>,
    Ghost(lo): Ghost<Option<K>>,
    Ghost(hi): Ghost<Option<K>>,
) -> (r: Box<TreeNode<K, V, NodeColor>>)
    requires
        total_order::<K>(),
        bounded(Some(node), lo, hi),
        node.right is Some,
    ensures
        r == turned_left(node),
        bounded(Some(r), lo, hi),
        forall|x: K| #![trigger lookup(Some(r), x)] lookup(Some(r), x) == lookup(Some(node), x),
        size(Some(r)) == size(Some(node)),
        r.tag == node.right.unwrap().tag,
        r.right == node.right.unwrap().right,
        r.left is Some,
        r.left.unwrap().tag == node.tag,
        r.left.unwrap().left == node.left,
        r.left.unwrap().right == node.right.unwrap().left,
{
    proof {
        reveal(turned_left);
        lemma_order_laws::<K>();
        reveal_with_fuel(bounded, 3);
        reveal_with_fuel(size, 3);
        reveal_with_fuel(lookup, 3);
    }
    let mut pivot = node.right.take().unwrap();
    node.right = pivot.left.take();
    pivot.left = Some(node);
    pivot
}

/// Turns the subtree at `node` to the right: the left child comes up and
/// `node` becomes its right child. Colours stay with their nodes.
pub(crate) fn rotate_right<K: Ord, V>(
    mut node: Box<TreeNode<K, V, NodeColor>>,
    Ghost(lo): Ghost<Option<K>>,
    Ghost(hi): Ghost<Option<K>>,
) -> (r: Box<TreeNode<K, V, NodeColor>>)
    requires
        total_order::<K>(),
        bounded(Some(node), lo, hi),
        node.left is Some,
    ensures
        r == turned_right(node),
        bounded(Some(r), lo, hi),
        forall|x: K| #![trigger lookup(Some(r), x)] lookup(Some(r), x) == lookup(Some(node), x),
        size(Some(r)) == size(Some(node)),
        r.tag == node.left.unwrap().tag,
        r.left == node.left.unwrap().left,
        r.right is Some,
        r.right.unwrap().tag == node.tag,
        r.right.unwrap().right == node.right,
        r.right.unwrap().left == node.left.unwrap().right,
{
    proof {
        reveal(turned_right);
        lemma_order_laws::<K>();
        reveal_with_fuel(bounded, 3);
        reveal_with_fuel(size, 3);
        reveal_with_fuel(lookup, 3);
    }
    let mut pivot = node.left.take().unwrap();
    node.left = pivot.right.take();
    pivot.right = Some(node);
    pivot
}

/// The rotation after an insertion below the left child's left side: the
/// node turns to the right, its former left child becomes black and the
/// node itself red.
pub(crate) fn left_left_rotation<K: Ord, V>(
    mut node: Box<TreeNode<K, V, NodeColor>>,
    Ghost(lo): Ghost<Option<K>>,
    Ghost(hi): Ghost<Option<K>>,
) -> (r: Box<TreeNode<K, V, NodeColor>>)
    requires
        total_order::<K>(),
        bounded(Some(node), lo, hi),
        node.left is Some,
    ensures
        r == left_left_rotated(node),
        bounded(Some(r), lo, hi),
        forall|x: K| #![trigger lookup(Some(r), x)] lookup(Some(r), x) == lookup(Some(node), x),
        size(Some(r)) == size(Some(node)),
        r.tag == NodeColor::Black,
        r.left == node.left.unwrap().left,
        r.right is Some,
        r.right.unwrap().tag == NodeColor::Red,
        r.right.unwrap().right == node.right,
        r.right.unwrap().left == node.left.unwrap().right,
{
    proof {
        reveal(left_left_rotated);
        reveal_with_fuel(bounded, 2);
        reveal_with_fuel(size, 2);
        reveal_with_fuel(lookup, 2);
    }
    let ghost before = node;
    node.tag = NodeColor::Red;
    proof {
        assert forall|x: K| lookup(Some(node), x) == lookup(Some(before), x) by {}
    }
    let ghost red = node;
    let mut r = rotate_right(node, Ghost(lo), Ghost(hi));
    let ghost turned = r;
    r.tag = NodeColor::Black;
    proof {
        assert forall|x: K| #![trigger lookup(Some(r), x)]
            lookup(Some(r), x) == lookup(Some(before), x) by {
            assert(lookup(Some(turned), x) == lookup(Some(red), x));
        }
    }
    r
}

/// The mirror image of [`left_left_rotation`].
pub(crate) fn right_right_rotation<K: Ord, V>(
    mut node: Box<TreeNode<K, V, NodeColor>>,
    Ghost(lo): Ghost<Option<K>>,
    Ghost(hi): Ghost<Option<K>>,
) -> (r: Box<TreeNode<K, V, NodeColor>>)
    requires
        total_order::<K>(),
        bounded(Some(node), lo, hi),
        node.right is Some,
    ensures
        r == right_right_rotated(node),
        bounded(Some(r), lo, hi),
        forall|x: K| #![trigger lookup(Some(r), x)] lookup(Some(r), x) == lookup(Some(node), x),
        size(Some(r)) == size(Some(node)),
        r.tag == NodeColor::Black,
        r.right == node.right.unwrap().right,
        r.left is Some,
        r.left.unwrap().tag == NodeColor::Red,
        r.left.unwrap().left == node.left,
        r.left.unwrap().right == node.right.unwrap().left,
{
    proof {
        reveal(right_right_rotated);
        reveal_with_fuel(bounded, 2);
        reveal_with_fuel(size, 2);
        reveal_with_fuel(lookup, 2);
    }
    let ghost before = node;
    node.tag = NodeColor::Red;
    proof {
        assert forall|x: K| lookup(Some(node), x) == lookup(Some(before), x) by {}
    }
    let ghost red = node;
    let mut r = rotate_left(node, Ghost(lo), Ghost(hi));
    let ghost turned = r;
    r.tag = NodeColor::Black;
    proof {
        assert forall|x: K| #![trigger lookup(Some(r), x)]
            lookup(Some(r), x) == lookup(Some(before), x) by {
            assert(lookup(Some(turned), x) == lookup(Some(red), x));
        }
    }
    r
}

/// The double rotation after an insertion below the left child's right
/// side: the left child turns to the left, then
/// [`left_left_rotation`] is applied.
pub(crate) fn left_right_rotation<K: Ord, V>(
    mut node: Box<TreeNode<K, V, NodeColor>>,
    Ghost(lo): Ghost<Option<K>>,
    Ghost(hi): Ghost<Option<K>>,
) -> (r: Box<TreeNode<K, V, NodeColor>>)
    requires
        total_order::<K>(),
        bounded(Some(node), lo, hi),
        node.left is Some,
        node.left.unwrap().right is Some,
    ensures
        r == left_right_rotated(node),
        bounded(Some(r), lo, hi),
        forall|x: K| #![trigger lookup(Some(r), x)] lookup(Some(r), x) == lookup(Some(node), x),
        size(Some(r)) == size(Some(node)),
        r.tag == NodeColor::Black,
        r.left is Some,
        r.left.unwrap().tag == node.left.unwrap().tag,
        r.left.unwrap().left == node.left.unwrap().left,
        r.left.unwrap().right == node.left.unwrap().right.unwrap().left,
        r.right is Some,
        r.right.unwrap().tag == NodeColor::Red,
        r.right.unwrap().left == node.left.unwrap().right.unwrap().right,
        r.right.unwrap().right == node.right,
{
    proof {
        reveal(left_right_rotated);
        reveal_with_fuel(bounded, 2);
        reveal_with_fuel(size, 2);
        reveal_with_fuel(lookup, 2);
    }
    let ghost before = node;
    let child = node.left.take().unwrap();
    let child = rotate_left(child, Ghost(lo), Ghost(Some(node.key)));
    node.left = Some(child);
    proof {
        assert forall|x: K| lookup(Some(node), x) == lookup(Some(before), x) by {
            assert(lookup(Some(child), x) == lookup(before.left, x));
        }
    }
    let r = left_left_rotation(node, Ghost(lo), Ghost(hi));
    proof {
        assert forall|x: K| #![trigger lookup(Some(r), x)]
            lookup(Some(r), x) == lookup(Some(before), x) by {
            assert(lookup(Some(r), x) == lookup(Some(node), x));
        }
    }
    r
}

/// The mirror image of [`left_right_rotation`].
pub(crate) fn right_left_rotation<K: Ord, V>(
    mut node: Box<TreeNode<K, V, NodeColor>>,
    Ghost(lo): Ghost<Option<K>>,
    Ghost(hi): Ghost<Option<K>>,
) -> (r: Box<TreeNode<K, V, NodeColor>>)
    requires
        total_order::<K>(),
        bounded(Some(node), lo, hi),
        node.right is Some,
        node.right.unwrap().left is Some,
    ensures
        r == right_left_rotated(node),
        bounded(Some(r), lo, hi),
        forall|x: K| #![trigger lookup(Some(r), x)] lookup(Some(r), x) == lookup(Some(node), x),
        size(Some(r)) == size(Some(node)),
        r.tag == NodeColor::Black,
        r.right is Some,
        r.right.unwrap().tag == node.right.unwrap().tag,
        r.right.unwrap().right == node.right.unwrap().right,
        r.right.unwrap().left == node.right.unwrap().left.unwrap().right,
        r.left is Some,
        r.left.unwrap().tag == NodeColor::Red,
        r.left.unwrap().right == node.right.unwrap().left.unwrap().left,
        r.left.unwrap().left == node.left,
{
    proof {
        reveal(right_left_rotated);
        reveal_with_fuel(bounded, 2);
        reveal_with_fuel(size, 2);
        reveal_with_fuel(lookup, 2);
    }
    let ghost before = node;
    let child = node.right.take().unwrap();
    let child = rotate_right(child, Ghost(Some(node.key)), Ghost(hi));
    node.right = Some(child);
    proof {
        assert forall|x: K| lookup(Some(node), x) == lookup(Some(before), x) by {
            assert(lookup(Some(child), x) == lookup(before.right, x));
        }
    }
    let r = right_right_rotation(node, Ghost(lo), Ghost(hi));
    proof {
        assert forall|x: K| #![trigger lookup(Some(r), x)]
            lookup(Some(r), x) == lookup(Some(before), x) by {
            assert(lookup(Some(r), x) == lookup(Some(node), x));
        }
    }
    r
}

} // verus!

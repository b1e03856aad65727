//! Levels, rotations and the rebalancing step of an AVL tree.

use crate::node::{bounded, height, lemma_height_le_size, lookup, size, Link, TreeNode};
use crate::order::{lemma_order_laws, total_order};
use vstd::prelude::*;

verus! {

/// The AVL balance: at every node the stored level is the height of the
/// subtree, and the heights of its two subtrees differ by at most one.
pub open spec fn balanced<K: Ord, V>(t: Link<K, V, usize>) -> bool
    decreases t,
{
    match t {
        None => true,
        Some(n) => {
            &&& balanced(n.left)
            &&& balanced(n.right)
            &&& n.tag == height(t)
            &&& height(n.left) <= height(n.right) + 1
            &&& height(n.right) <= height(n.left) + 1
        },
    }
}

/// The level stored at the top of a subtree is its height.
pub open spec fn leveled<K: Ord, V>(t: Link<K, V, usize>) -> bool {
    t is Some ==> t.unwrap().tag == height(t)
}

/// The node with its level set to the height of its subtree.
pub open spec fn with_level<K: Ord, V>(node: Box<TreeNode<K, V, usize>>) -> Box<
    TreeNode<K, V, usize>,
> {
    Box::new(TreeNode { tag: height(Some(node)) as usize, ..*node })
}

/// The subtree after the rotation that brings the left child of `node` up
/// and takes `node` down to its right.
#[verifier::opaque]
pub open spec fn left_left_rotated<K: Ord, V>(node: Box<TreeNode<K, V, usize>>) -> Box<
    TreeNode<K, V, usize>,
>
    recommends
        node.left is Some,
{
    let pivot = node.left.unwrap();
    let lowered = with_level(Box::new(TreeNode { left: pivot.right, ..*node }));
    with_level(Box::new(TreeNode { right: Some(lowered), ..*pivot }))
}

/// The subtree after the rotation that brings the right child of `node` up
/// and takes `node` down to its left.
#[verifier::opaque]
pub open spec fn right_right_rotated<K: Ord, V>(node: Box<TreeNode<K, V, usize>>) -> Box<
    TreeNode<K, V, usize>,
>
    recommends
        node.right is Some,
{
    let pivot = node.right.unwrap();
    let lowered = with_level(Box::new(TreeNode { right: pivot.left, ..*node }));
    with_level(Box::new(TreeNode { left: Some(lowered), ..*pivot }))
}

/// The subtree after the double rotation that brings the right child of the
/// left child of `node` to the top.
#[verifier::opaque]
pub open spec fn left_right_rotated<K: Ord, V>(node: Box<TreeNode<K, V, usize>>) -> Box<
    TreeNode<K, V, usize>,
>
    recommends
        node.left is Some,
        node.left.unwrap().right is Some,
{
    left_left_rotated(
        Box::new(TreeNode { left: Some(right_right_rotated(node.left.unwrap())), ..*node }),
    )
}

/// The subtree after the double rotation that brings the left child of the
/// right child of `node` to the top.
#[verifier::opaque]
pub open spec fn right_left_rotated<K: Ord, V>(node: Box<TreeNode<K, V, usize>>) -> Box<
    TreeNode<K, V, usize>,
>
    recommends
        node.right is Some,
        node.right.unwrap().left is Some,
{
    right_right_rotated(
        Box::new(TreeNode { right: Some(left_left_rotated(node.right.unwrap())), ..*node }),
    )
}

/// The height of the left subtree of a node less the height of its right
/// subtree.
pub open spec fn tilt<K: Ord, V>(node: TreeNode<K, V, usize>) -> int {
    height(node.left) - height(node.right)
}

/// The subtree at `node` brought back into balance. A node that is two
/// levels taller on the left is rotated to the right, after its left child,
/// where that child is taller on the right, has been rotated to the left;
/// likewise on the other side. Any other node only has its level set.
#[verifier::opaque]
pub open spec fn rebalanced<K: Ord, V>(node: Box<TreeNode<K, V, usize>>) -> Box<
    TreeNode<K, V, usize>,
> {
    if tilt(*node) == 2 {
        if tilt(*node.left.unwrap()) >= 0 {
            left_left_rotated(node)
        } else {
            left_right_rotated(node)
        }
    } else if tilt(*node) == -2 {
        if tilt(*node.right.unwrap()) <= 0 {
            right_right_rotated(node)
        } else {
            right_left_rotated(node)
        }
    } else {
        with_level(node)
    }
}

/// The stored level of a subtree, 0 for an empty one.
pub(crate) fn level_of<K: Ord, V>(t: &Link<K, V, usize>) -> (r: usize)
    requires
        leveled(*t),
    ensures
        r == height(*t),
{
    match t {
        None => 0,
        Some(n) => n.tag,
    }
}

/// Sets the level of a node from the levels of its two subtrees.
pub(crate) fn update_level<K: Ord, V>(mut node: Box<TreeNode<K, V, usize>>) -> (r: Box<
    TreeNode<K, V, usize>,
>)
    requires
        leveled(node.left),
        leveled(node.right),
        height(Some(node)) <= usize::MAX,
    ensures
        r == with_level(node),
{
    let l: usize = level_of(&node.left);
    let r: usize = level_of(&node.right);
    node.tag = if l >= r {
        l + 1
    } else {
        r + 1
    };
    node
}

/// The rotation for a node whose left subtree is too tall on its left side:
/// the left child comes up and the node goes down to its right.
pub(crate) fn left_left_rotation<K: Ord, V>(
    mut node: Box<TreeNode<K, V, usize>>,
    Ghost(lo): Ghost<Option<K>>,
    Ghost(hi): Ghost<Option<K>>,
) -> (r: Box<TreeNode<K, V, usize>>)
    requires
        total_order::<K>(),
        bounded(Some(node), lo, hi),
        node.left is Some,
        leveled(node.left.unwrap().left),
        leveled(node.left.unwrap().right),
        leveled(node.right),
        size(Some(node)) <= usize::MAX,
    ensures
        r == left_left_rotated(node),
        bounded(Some(r), lo, hi),
        forall|x: K| #![trigger lookup(Some(r), x)]
 lookup(Some(r), x) == lookup(Some(node), x),
        size(Some(r)) == size(Some(node)),
        r.left == node.left.unwrap().left,
        r.tag == height(Some(r)),
        r.right is Some,
        r.right.unwrap().left == node.left.unwrap().right,
        r.right.unwrap().right == node.right,
        r.right.unwrap().tag == height(r.right),
{
    proof {
        reveal(left_left_rotated);
    }
    let ghost before = node;
    proof {
        lemma_order_laws::<K>();
        reveal_with_fuel(bounded, 3);
        reveal_with_fuel(size, 3);
        reveal_with_fuel(lookup, 3);
    }
    let mut pivot = node.left.take().unwrap();
    node.left = pivot.right.take();
    proof {
        lemma_height_le_size(Some(node));
    }
    let node = update_level(node);
    pivot.right = Some(node);
    proof {
        lemma_height_le_size(Some(pivot));
    }
    update_level(pivot)
}

/// The mirror image of [`left_left_rotation`]: the right child comes up and
/// the node goes down to its left.
pub(crate) fn right_right_rotation<K: Ord, V>(
    mut node: Box<TreeNode<K, V, usize>>,
    Ghost(lo): Ghost<Option<K>>,
    Ghost(hi): Ghost<Option<K>>,
) -> (r: Box<TreeNode<K, V, usize>>)
    requires
        total_order::<K>(),
        bounded(Some(node), lo, hi),
        node.right is Some,
        leveled(node.right.unwrap().left),
        leveled(node.right.unwrap().right),
        leveled(node.left),
        size(Some(node)) <= usize::MAX,
    ensures
        r == right_right_rotated(node),
        bounded(Some(r), lo, hi),
        forall|x: K| #![trigger lookup(Some(r), x)]
 lookup(Some(r), x) == lookup(Some(node), x),
        size(Some(r)) == size(Some(node)),
        r.right == node.right.unwrap().right,
        r.tag == height(Some(r)),
        r.left is Some,
        r.left.unwrap().right == node.right.unwrap().left,
        r.left.unwrap().left == node.left,
        r.left.unwrap().tag == height(r.left),
{
    proof {
        reveal(right_right_rotated);
        lemma_order_laws::<K>();
        reveal_with_fuel(bounded, 3);
        reveal_with_fuel(size, 3);
        reveal_with_fuel(lookup, 3);
    }
    let mut pivot = node.right.take().unwrap();
    node.right = pivot.left.take();
    proof {
        lemma_height_le_size(Some(node));
    }
    let node = update_level(node);
    pivot.left = Some(node);
    proof {
        lemma_height_le_size(Some(pivot));
    }
    update_level(pivot)
}

/// The double rotation for a node whose left subtree is too tall on its
/// right side: the left child is rotated to the left, then the node to the
/// right, so that the left child's right child comes to the top.
pub(crate) fn left_right_rotation<K: Ord, V>(
    mut node: Box<TreeNode<K, V, usize>>,
    Ghost(lo): Ghost<Option<K>>,
    Ghost(hi): Ghost<Option<K>>,
) -> (r: Box<TreeNode<K, V, usize>>)
    requires
        total_order::<K>(),
        bounded(Some(node), lo, hi),
        node.left is Some,
        node.left.unwrap().right is Some,
        leveled(node.left.unwrap().left),
        leveled(node.left.unwrap().right.unwrap().left),
        leveled(node.left.unwrap().right.unwrap().right),
        leveled(node.right),
        size(Some(node)) <= usize::MAX,
    ensures
        r == left_right_rotated(node),
        bounded(Some(r), lo, hi),
        forall|x: K| #![trigger lookup(Some(r), x)]
 lookup(Some(r), x) == lookup(Some(node), x),
        size(Some(r)) == size(Some(node)),
        r.tag == height(Some(r)),
        r.left is Some,
        r.left.unwrap().left == node.left.unwrap().left,
        r.left.unwrap().right == node.left.unwrap().right.unwrap().left,
        r.left.unwrap().tag == height(r.left),
        r.right is Some,
        r.right.unwrap().left == node.left.unwrap().right.unwrap().right,
        r.right.unwrap().right == node.right,
        r.right.unwrap().tag == height(r.right),
{
    proof {
        reveal(left_right_rotated);
        reveal_with_fuel(bounded, 2);
        reveal_with_fuel(size, 2);
        reveal_with_fuel(lookup, 2);
    }
    let ghost before = node;
    let child = node.left.take().unwrap();
    let child = right_right_rotation(child, Ghost(lo), Ghost(Some(node.key)));
    node.left = Some(child);
    proof {
        assert forall|x: K| lookup(Some(node), x) == lookup(Some(before), x) by {
            assert(lookup(Some(child), x) == lookup(before.left, x));
        }
    }
    let r = left_left_rotation(node, Ghost(lo), Ghost(hi));
    proof {
        assert forall|x: K| lookup(Some(r), x) == lookup(Some(before), x) by {
            assert(lookup(Some(r), x) == lookup(Some(node), x));
        }
    }
    r
}

/// The mirror image of [`left_right_rotation`].
pub(crate) fn right_left_rotation<K: Ord, V>(
    mut node: Box<TreeNode<K, V, usize>>,
    Ghost(lo): Ghost<Option<K>>,
    Ghost(hi): Ghost<Option<K>>,
) -> (r: Box<TreeNode<K, V, usize>>)
    requires
        total_order::<K>(),
        bounded(Some(node), lo, hi),
        node.right is Some,
        node.right.unwrap().left is Some,
        leveled(node.right.unwrap().right),
        leveled(node.right.unwrap().left.unwrap().left),
        leveled(node.right.unwrap().left.unwrap().right),
        leveled(node.left),
        size(Some(node)) <= usize::MAX,
    ensures
        r == right_left_rotated(node),
        bounded(Some(r), lo, hi),
        forall|x: K| #![trigger lookup(Some(r), x)]
 lookup(Some(r), x) == lookup(Some(node), x),
        size(Some(r)) == size(Some(node)),
        r.tag == height(Some(r)),
        r.right is Some,
        r.right.unwrap().right == node.right.unwrap().right,
        r.right.unwrap().left == node.right.unwrap().left.unwrap().right,
        r.right.unwrap().tag == height(r.right),
        r.left is Some,
        r.left.unwrap().right == node.right.unwrap().left.unwrap().left,
        r.left.unwrap().left == node.left,
        r.left.unwrap().tag == height(r.left),
{
    proof {
        reveal(right_left_rotated);
        reveal_with_fuel(bounded, 2);
        reveal_with_fuel(size, 2);
        reveal_with_fuel(lookup, 2);
    }
    let ghost before = node;
    let child = node.right.take().unwrap();
    let child = left_left_rotation(child, Ghost(Some(node.key)), Ghost(hi));
    node.right = Some(child);
    proof {
        assert forall|x: K| lookup(Some(node), x) == lookup(Some(before), x) by {
            assert(lookup(Some(child), x) == lookup(before.right, x));
        }
    }
    let r = right_right_rotation(node, Ghost(lo), Ghost(hi));
    proof {
        assert forall|x: K| lookup(Some(r), x) == lookup(Some(before), x) by {
            assert(lookup(Some(r), x) == lookup(Some(node), x));
        }
    }
    r
}

/// The level of the left subtree minus the level of the right subtree.
pub(crate) fn balance_factor<K: Ord, V>(node: &TreeNode<K, V, usize>) -> (r: i32)
    requires
        leveled(node.left),
        leveled(node.right),
        height(node.left) <= height(node.right) + 2,
        height(node.right) <= height(node.left) + 2,
    ensures
        r == tilt(*node),
{
    let l: usize = level_of(&node.left);
    let r: usize = level_of(&node.right);
    if l >= r {
        let d: usize = l - r;
        if d == 0 {
            0
        } else if d == 1 {
            1
        } else {
            2
        }
    } else {
        let d: usize = r - l;
        if d == 1 {
            -1
        } else {
            -2
        }
    }
}

/// Whether the left subtree of `t` is at least as tall as its right subtree.
fn leans_left<K: Ord, V>(t: &Link<K, V, usize>) -> (r: bool)
    requires
        balanced(*t),
    ensures
        r == (t is Some ==> height(t.unwrap().left) >= height(t.unwrap().right)),
{
    proof {
        reveal_with_fuel(balanced, 2);
    }
    match t {
        None => true,
        Some(n) => level_of(&n.left) >= level_of(&n.right),
    }
}

/// Whether the right subtree of `t` is at least as tall as its left subtree.
fn leans_right<K: Ord, V>(t: &Link<K, V, usize>) -> (r: bool)
    requires
        balanced(*t),
    ensures
        r == (t is Some ==> height(t.unwrap().right) >= height(t.unwrap().left)),
{
    proof {
        reveal_with_fuel(balanced, 2);
    }
    match t {
        None => true,
        Some(n) => level_of(&n.right) >= level_of(&n.left),
    }
}

/// Restores the balance at a node whose subtrees are balanced and differ in
/// height by at most two: where they differ by two, the rotation for the
/// heavy side is applied; otherwise only the level is set.
pub(crate) fn balance<K: Ord, V>(
    node: Box<TreeNode<K, V, usize>>,
    Ghost(lo): Ghost<Option<K>>,
    Ghost(hi): Ghost<Option<K>>,
) -> (r: Box<TreeNode<K, V, usize>>)
    requires
        total_order::<K>(),
        bounded(Some(node), lo, hi),
        balanced(node.left),
        balanced(node.right),
        height(node.left) <= height(node.right) + 2,
        height(node.right) <= height(node.left) + 2,
        size(Some(node)) <= usize::MAX,
    ensures
        r == rebalanced(node),
        bounded(Some(r), lo, hi),
        balanced(Some(r)),
        forall|x: K| #![trigger lookup(Some(r), x)]
 lookup(Some(r), x) == lookup(Some(node), x),
        size(Some(r)) == size(Some(node)),
        height(Some(r)) == height(Some(node)) || height(Some(r)) + 1 == height(Some(node)),
        height(node.left) <= height(node.right) + 1 && height(node.right) <= height(node.left) + 1
            ==> height(Some(r)) == height(Some(node)),
{
    proof {
        reveal(rebalanced);
        reveal_with_fuel(balanced, 3);
        reveal_with_fuel(height, 3);
        lemma_height_le_size(Some(node));
    }
    let factor: i32 = balance_factor(&node);
    if factor == 2 {
        if leans_left(&node.left) {
            left_left_rotation(node, Ghost(lo), Ghost(hi))
        } else {
            left_right_rotation(node, Ghost(lo), Ghost(hi))
        }
    } else if factor == -2 {
        if leans_right(&node.right) {
            right_right_rotation(node, Ghost(lo), Ghost(hi))
        } else {
            right_left_rotation(node, Ghost(lo), Ghost(hi))
        }
    } else {
        update_level(node)
    }
}

/// The Fibonacci numbers: 0, 1, 1, 2, 3, 5, ...
pub open spec fn fib(n: nat) -> nat
    decreases n,
{
    if n < 2 {
        n
    } else {
        fib((n - 1) as nat) + fib((n - 2) as nat)
    }
}

/// The Fibonacci numbers never descend.
pub proof fn lemma_fib_ascends(a: nat, b: nat)
    requires
        a <= b,
    ensures
        fib(a) <= fib(b),
    decreases b,
{
    if a < b {
        lemma_fib_ascends(a, (b - 1) as nat);
    }
}

/// A balanced tree of a given height has at least as many nodes as the
/// sparsest such tree, whose size grows with the height like the Fibonacci
/// numbers.
pub proof fn lemma_balanced_size<K: Ord, V>(t: Link<K, V, usize>)
    requires
        balanced(t),
    ensures
        fib(height(t) + 2) <= size(t) + 1,
    decreases t,
{
    if let Some(n) = t {
        lemma_balanced_size(n.left);
        lemma_balanced_size(n.right);
        let h = height(t);
        assert(fib(h + 2) == fib(h + 1) + fib(h));
        if height(n.left) >= height(n.right) {
            lemma_fib_ascends(h, height(n.right) + 2);
        } else {
            lemma_fib_ascends(h, height(n.left) + 2);
        }
    } else {
        assert(fib(2) == 1) by {
            reveal_with_fuel(fib, 3);
        }
    }
}

} // verus!

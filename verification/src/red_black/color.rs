//! The colours of a red-black tree and the rules they obey.

use crate::node::{height, size, Link, TreeNode};
use vstd::arithmetic::power2::{lemma_pow2_strictly_increases, lemma_pow2_unfold, pow2};
use vstd::prelude::*;

verus! {

/// The colour of a node.
#[derive(Clone, Copy, PartialEq, Eq, Structural, Debug)]
pub enum NodeColor {
    Red,
    Black,
}

/// Whether a subtree starts with a red node. An empty subtree counts as
/// black.
pub open spec fn is_red<K: Ord, V>(t: Link<K, V, NodeColor>) -> bool {
    t is Some && t.unwrap().tag == NodeColor::Red
}

/// The number of black nodes on the way from the top of a subtree down its
/// left edge.
pub open spec fn black_height<K: Ord, V>(t: Link<K, V, NodeColor>) -> nat
    decreases t,
{
    match t {
        None => 0,
        Some(n) => if n.tag == NodeColor::Black {
            black_height(n.left) + 1
        } else {
            black_height(n.left)
        },
    }
}

/// At every node the two subtrees have the same black height, so that
/// every way from a node down to an empty place passes the same number of
/// black nodes.
pub open spec fn black_balanced<K: Ord, V>(t: Link<K, V, NodeColor>) -> bool
    decreases t,
{
    match t {
        None => true,
        Some(n) => {
            &&& black_balanced(n.left)
            &&& black_balanced(n.right)
            &&& black_height(n.left) == black_height(n.right)
        },
    }
}

/// No red node has a red child.
pub open spec fn no_red_red<K: Ord, V>(t: Link<K, V, NodeColor>) -> bool
    decreases t,
{
    match t {
        None => true,
        Some(n) => {
            &&& no_red_red(n.left)
            &&& no_red_red(n.right)
            &&& n.tag == NodeColor::Red ==> !is_red(n.left) && !is_red(n.right)
        },
    }
}

/// A red node at the top of a subtree with a red child: the one fault that
/// an insertion may leave behind for the level above to mend.
pub open spec fn red_on_red<K: Ord, V>(t: Link<K, V, NodeColor>) -> bool {
    is_red(t) && (is_red(t.unwrap().left) || is_red(t.unwrap().right))
}

/// No red node below the top has a red child, and a red top node has at
/// most one red child.
pub open spec fn nearly_no_red_red<K: Ord, V>(t: Link<K, V, NodeColor>) -> bool {
    match t {
        None => true,
        Some(n) => {
            &&& no_red_red(n.left)
            &&& no_red_red(n.right)
            &&& n.tag == NodeColor::Red ==> !(is_red(n.left) && is_red(n.right))
        },
    }
}

/// Whether a subtree starts with a red node.
pub(crate) fn starts_red<K: Ord, V>(t: &Link<K, V, NodeColor>) -> (r: bool)
    ensures
        r == is_red(*t),
{
    match t {
        None => false,
        Some(n) => n.tag == NodeColor::Red,
    }
}

/// Whether a subtree starts with a node whose left child is red.
pub(crate) fn left_child_red<K: Ord, V>(t: &Link<K, V, NodeColor>) -> (r: bool)
    ensures
        r == (t is Some && is_red(t.unwrap().left)),
{
    match t {
        None => false,
        Some(n) => starts_red(&n.left),
    }
}

/// Whether a subtree starts with a node whose right child is red.
pub(crate) fn right_child_red<K: Ord, V>(t: &Link<K, V, NodeColor>) -> (r: bool)
    ensures
        r == (t is Some && is_red(t.unwrap().right)),
{
    match t {
        None => false,
        Some(n) => starts_red(&n.right),
    }
}

/// The subtree with its top node in the colour `color`; an empty subtree
/// stays as it is.
pub open spec fn painted<K: Ord, V>(t: Link<K, V, NodeColor>, color: NodeColor) -> Link<
    K,
    V,
    NodeColor,
> {
    match t {
        None => None,
        Some(n) => Some(Box::new(TreeNode { tag: color, ..*n })),
    }
}

/// Gives the top node of a subtree the colour `color`; an empty subtree
/// stays as it is.
pub(crate) fn paint<K: Ord, V>(t: Link<K, V, NodeColor>, color: NodeColor) -> (r: Link<
    K,
    V,
    NodeColor,
>)
    ensures
        r == painted(t, color),
{
    match t {
        None => None,
        Some(mut n) => {
            n.tag = color;
            Some(n)
        },
    }
}

/// A subtree has at least as many nodes as the full tree of black nodes
/// that its black height asks for.
pub proof fn lemma_black_height_size<K: Ord, V>(t: Link<K, V, NodeColor>)
    requires
        black_balanced(t),
    ensures
        pow2(black_height(t)) <= size(t) + 1,
    decreases t,
{
    match t {
        None => {
            vstd::arithmetic::power2::lemma2_to64();
        },
        Some(n) => {
            lemma_black_height_size(n.left);
            lemma_black_height_size(n.right);
            lemma_pow2_unfold(black_height(n.left) + 1);
        },
    }
}

/// Without a red child below a red node, at most every second node on a
/// way down is red, so a subtree is at most about twice as tall as its black
/// height.
pub proof fn lemma_height_black_height<K: Ord, V>(t: Link<K, V, NodeColor>)
    requires
        black_balanced(t),
        no_red_red(t),
    ensures
        is_red(t) ==> height(t) <= 2 * black_height(t) + 1,
        !is_red(t) ==> height(t) <= 2 * black_height(t),
    decreases t,
{
    if let Some(n) = t {
        lemma_height_black_height(n.left);
        lemma_height_black_height(n.right);
    }
}

/// Powers of two never descend.
pub proof fn lemma_pow2_ascends(a: nat, b: nat)
    requires
        a <= b,
    ensures
        pow2(a) <= pow2(b),
{
    if a < b {
        lemma_pow2_strictly_increases(a, b);
    }
}

/// Whether the way that takes `turns` from the top of `t`, `false` for a
/// step to the left and `true` for a step to the right, passes through
/// nodes only and ends at an empty place.
pub open spec fn leads_out<K: Ord, V>(t: Link<K, V, NodeColor>, turns: Seq<bool>) -> bool
    decreases turns.len(),
{
    match t {
        None => turns.len() == 0,
        Some(n) => if turns.len() == 0 {
            false
        } else if turns[0] {
            leads_out(n.right, turns.drop_first())
        } else {
            leads_out(n.left, turns.drop_first())
        },
    }
}

/// The number of black nodes that the way by `turns` from the top of `t`
/// passes.
pub open spec fn blacks_on<K: Ord, V>(t: Link<K, V, NodeColor>, turns: Seq<bool>) -> nat
    decreases turns.len(),
{
    match t {
        None => 0,
        Some(n) => if turns.len() == 0 {
            0
        } else {
            let below = if turns[0] {
                blacks_on(n.right, turns.drop_first())
            } else {
                blacks_on(n.left, turns.drop_first())
            };
            if n.tag == NodeColor::Black {
                below + 1
            } else {
                below
            }
        },
    }
}

/// In a subtree with equal black heights at every node, every way down to
/// an empty place passes as many black nodes as the way down the left edge.
pub proof fn lemma_blacks_on_every_way<K: Ord, V>(
    t: Link<K, V, NodeColor>,
    turns: Seq<bool>,
)
    requires
        black_balanced(t),
        leads_out(t, turns),
    ensures
        blacks_on(t, turns) == black_height(t),
    decreases turns.len(),
{
    if let Some(n) = t {
        if turns[0] {
            lemma_blacks_on_every_way(n.right, turns.drop_first());
        } else {
            lemma_blacks_on_every_way(n.left, turns.drop_first());
        }
    }
}

} // verus!

//! The binary search tree that both balanced trees are built on: its nodes,
//! what a tree of them means as a map, and the search-tree order.
//!
//! A node owns the two subtrees below it. No node refers to the node above:
//! a change is made on the way down from the root, and each node on that
//! way is put in order again as the change returns to it.

use crate::order::{key_lt, lemma_order_laws, rank, total_order, Rank};
use vstd::arithmetic::power2::{lemma_pow2_strictly_increases, lemma_pow2_unfold, pow2};
use vstd::prelude::*;

verus! {

/// One entry of a tree with the two subtrees below it. `tag` is what the
/// balancing scheme keeps at each node: a level or a colour.
#[derive(Debug)]
pub struct TreeNode<K: Ord, V, T> {
    pub key: K,
    pub value: V,
    pub tag: T,
    pub left: Option<Box<TreeNode<K, V, T>>>,
    pub right: Option<Box<TreeNode<K, V, T>>>,
}

/// A subtree, which may be empty.
pub type Link<K, V, T> = Option<Box<TreeNode<K, V, T>>>;

/// What a search for `x` finds in `t`: at each node it stops if the keys are
/// equal, goes left if `x` is smaller and right if it is larger.
pub open spec fn lookup<K: Ord, V, T>(t: Link<K, V, T>, x: K) -> Option<V>
    decreases t,
{
    match t {
        None => None,
        Some(n) => if x == n.key {
            Some(n.value)
        } else if key_lt(x, n.key) {
            lookup(n.left, x)
        } else {
            lookup(n.right, x)
        },
    }
}

/// The tree as a map: each key that a search finds, with the value found.
pub open spec fn contents<K: Ord, V, T>(t: Link<K, V, T>) -> Map<K, V> {
    Map::new(|x: K| lookup(t, x) is Some, |x: K| lookup(t, x).unwrap())
}

/// `x` lies strictly between the two bounds, where they are given.
pub open spec fn within<K: Ord>(x: K, lo: Option<K>, hi: Option<K>) -> bool {
    &&& lo is Some ==> key_lt(lo.unwrap(), x)
    &&& hi is Some ==> key_lt(x, hi.unwrap())
}

/// The search-tree order between two bounds: every key lies between them,
/// the keys to the left of a node are smaller than its key and the keys to
/// its right are larger.
pub open spec fn bounded<K: Ord, V, T>(
    t: Link<K, V, T>,
    lo: Option<K>,
    hi: Option<K>,
) -> bool
    decreases t,
{
    match t {
        None => true,
        Some(n) => {
            &&& within(n.key, lo, hi)
            &&& bounded(n.left, lo, Some(n.key))
            &&& bounded(n.right, Some(n.key), hi)
        },
    }
}

/// The keys that stand in the nodes of a subtree.
pub open spec fn keys<K: Ord, V, T>(t: Link<K, V, T>) -> Set<K>
    decreases t,
{
    match t {
        None => Set::empty(),
        Some(n) => keys(n.left).union(keys(n.right)).insert(n.key),
    }
}

/// The search-tree order, node by node: all keys in the left subtree of a
/// node are smaller than its key and all keys in its right subtree are
/// larger.
pub open spec fn ordered<K: Ord, V, T>(t: Link<K, V, T>) -> bool
    decreases t,
{
    match t {
        None => true,
        Some(n) => {
            &&& ordered(n.left)
            &&& ordered(n.right)
            &&& forall|x: K| #[trigger] keys(n.left).contains(x) ==> key_lt(x, n.key)
            &&& forall|x: K| #[trigger] keys(n.right).contains(x) ==> key_lt(n.key, x)
        },
    }
}

/// The entry with the smallest key in the subtree at `node`: the one at the
/// end of its left edge.
pub open spec fn least<K: Ord, V, T>(node: Box<TreeNode<K, V, T>>) -> (K, V)
    decreases node,
{
    match node.left {
        None => (node.key, node.value),
        Some(left) => least(left),
    }
}

/// The number of nodes of a subtree.
pub open spec fn size<K: Ord, V, T>(t: Link<K, V, T>) -> nat
    decreases t,
{
    match t {
        None => 0,
        Some(n) => 1 + size(n.left) + size(n.right),
    }
}

/// The number of nodes on the longest way down from the top of a subtree.
pub open spec fn height<K: Ord, V, T>(t: Link<K, V, T>) -> nat
    decreases t,
{
    match t {
        None => 0,
        Some(n) => if height(n.left) >= height(n.right) {
            1 + height(n.left)
        } else {
            1 + height(n.right)
        },
    }
}

/// A subtree is never taller than it has nodes.
pub proof fn lemma_height_le_size<K: Ord, V, T>(t: Link<K, V, T>)
    ensures
        height(t) <= size(t),
    decreases t,
{
    if let Some(n) = t {
        lemma_height_le_size(n.left);
        lemma_height_le_size(n.right);
    }
}

/// A subtree of a given height has room for fewer nodes than two to the
/// power of that height.
pub proof fn lemma_size_lt_pow2<K: Ord, V, T>(t: Link<K, V, T>)
    ensures
        size(t) + 1 <= pow2(height(t)),
    decreases t,
{
    match t {
        None => {
            vstd::arithmetic::power2::lemma2_to64();
        },
        Some(n) => {
            lemma_size_lt_pow2(n.left);
            lemma_size_lt_pow2(n.right);
            let h = height(t);
            lemma_pow2_unfold(h);
            if height(n.left) < h - 1 {
                lemma_pow2_strictly_increases(height(n.left), (h - 1) as nat);
            }
            if height(n.right) < h - 1 {
                lemma_pow2_strictly_increases(height(n.right), (h - 1) as nat);
            }
        },
    }
}

/// A search only finds keys between the bounds of the tree.
pub proof fn lemma_found_within<K: Ord, V, T>(
    t: Link<K, V, T>,
    lo: Option<K>,
    hi: Option<K>,
    x: K,
)
    requires
        total_order::<K>(),
        bounded(t, lo, hi),
        lookup(t, x) is Some,
    ensures
        within(x, lo, hi),
    decreases t,
{
    lemma_order_laws::<K>();
    if let Some(n) = t {
        if x == n.key {
        } else if key_lt(x, n.key) {
            lemma_found_within(n.left, lo, Some(n.key), x);
        } else {
            lemma_found_within(n.right, Some(n.key), hi, x);
        }
    }
}

/// A tree in order between two bounds is in order node by node, its keys
/// lie between the bounds, and a search finds each of them.
pub proof fn lemma_bounded_is_ordered<K: Ord, V, T>(
    t: Link<K, V, T>,
    lo: Option<K>,
    hi: Option<K>,
)
    requires
        total_order::<K>(),
        bounded(t, lo, hi),
    ensures
        ordered(t),
        keys(t) == contents(t).dom(),
        forall|x: K| #[trigger] keys(t).contains(x) ==> within(x, lo, hi),
    decreases t,
{
    lemma_order_laws::<K>();
    match t {
        None => {
            assert(keys(t) =~= contents(t).dom());
        },
        Some(n) => {
            lemma_bounded_is_ordered(n.left, lo, Some(n.key));
            lemma_bounded_is_ordered(n.right, Some(n.key), hi);
            assert forall|x: K| keys(t).contains(x) == contents(t).dom().contains(x) by {
                if contents(n.left).dom().contains(x) {
                    assert(keys(n.left).contains(x));
                }
                if contents(n.right).dom().contains(x) {
                    assert(keys(n.right).contains(x));
                }
            }
            assert(keys(t) =~= contents(t).dom());
        },
    }
}

/// A tree in order node by node, with its keys between two bounds, is in
/// order between these bounds.
pub proof fn lemma_ordered_is_bounded<K: Ord, V, T>(
    t: Link<K, V, T>,
    lo: Option<K>,
    hi: Option<K>,
)
    requires
        total_order::<K>(),
        ordered(t),
        forall|x: K| #[trigger] keys(t).contains(x) ==> within(x, lo, hi),
    ensures
        bounded(t, lo, hi),
    decreases t,
{
    lemma_order_laws::<K>();
    if let Some(n) = t {
        assert(keys(t).contains(n.key));
        assert forall|x: K| #[trigger] keys(n.left).contains(x) implies within(
            x,
            lo,
            Some(n.key),
        ) by {
            assert(keys(t).contains(x));
        }
        assert forall|x: K| #[trigger] keys(n.right).contains(x) implies within(
            x,
            Some(n.key),
            hi,
        ) by {
            assert(keys(t).contains(x));
        }
        lemma_ordered_is_bounded(n.left, lo, Some(n.key));
        lemma_ordered_is_bounded(n.right, Some(n.key), hi);
    }
}

/// Bounds may be moved outwards.
pub proof fn lemma_widen<K: Ord, V, T>(
    t: Link<K, V, T>,
    lo: Option<K>,
    hi: Option<K>,
    lo2: Option<K>,
    hi2: Option<K>,
)
    requires
        total_order::<K>(),
        bounded(t, lo, hi),
        lo2 is Some ==> lo is Some && (lo2 == lo || key_lt(lo2.unwrap(), lo.unwrap())),
        hi2 is Some ==> hi is Some && (hi2 == hi || key_lt(hi.unwrap(), hi2.unwrap())),
    ensures
        bounded(t, lo2, hi2),
    decreases t,
{
    lemma_order_laws::<K>();
    if let Some(n) = t {
        lemma_widen(n.left, lo, Some(n.key), lo2, Some(n.key));
        lemma_widen(n.right, Some(n.key), hi, Some(n.key), hi2);
    }
}

/// In a search tree every node is found by a search for its key, so the map
/// has as many entries as the tree has nodes.
pub proof fn lemma_size_is_len<K: Ord, V, T>(
    t: Link<K, V, T>,
    lo: Option<K>,
    hi: Option<K>,
)
    requires
        total_order::<K>(),
        bounded(t, lo, hi),
    ensures
        contents(t).dom().finite(),
        contents(t).len() == size(t),
    decreases t,
{
    lemma_order_laws::<K>();
    match t {
        None => {
            assert(contents(t).dom() =~= Set::empty());
        },
        Some(n) => {
            lemma_size_is_len(n.left, lo, Some(n.key));
            lemma_size_is_len(n.right, Some(n.key), hi);
            let l = contents(n.left).dom();
            let r = contents(n.right).dom();
            assert forall|x: K| l.contains(x) implies key_lt(x, n.key) by {
                lemma_found_within(n.left, lo, Some(n.key), x);
            }
            assert forall|x: K| r.contains(x) implies key_lt(n.key, x) by {
                lemma_found_within(n.right, Some(n.key), hi, x);
            }
            assert(l.disjoint(r));
            vstd::set_lib::lemma_set_disjoint_lens(l, r);
            assert(!l.union(r).contains(n.key));
            assert(contents(t).dom() =~= l.union(r).insert(n.key));
        },
    }
}

/// Where a search of `after` finds what a search of `before` finds, but
/// `v` for the key `k`, the map of `after` is that of `before` with the
/// entry `k`, `v` put in.
pub proof fn lemma_contents_with<K: Ord, V, T>(
    before: Link<K, V, T>,
    after: Link<K, V, T>,
    k: K,
    v: V,
)
    requires
        forall|x: K|
            #![trigger lookup(after, x)]
            lookup(after, x) == if x == k {
                Some(v)
            } else {
                lookup(before, x)
            },
    ensures
        contents(after) == contents(before).insert(k, v),
{
    assert(contents(after) =~= contents(before).insert(k, v));
}

/// Where a search of `after` finds what a search of `before` finds, but
/// nothing for the key `k`, the map of `after` is that of `before` with `k`
/// taken out.
pub proof fn lemma_contents_without<K: Ord, V, T>(
    before: Link<K, V, T>,
    after: Link<K, V, T>,
    k: K,
)
    requires
        forall|x: K|
            #![trigger lookup(after, x)]
            lookup(after, x) == if x == k {
                None
            } else {
                lookup(before, x)
            },
    ensures
        contents(after) == contents(before).remove(k),
{
    assert(contents(after) =~= contents(before).remove(k));
}

/// The subtree that a search for `x` stops at: the one whose top node has
/// key `x`, or the empty subtree if there is no such node.
pub open spec fn subtree_at<K: Ord, V, T>(t: Link<K, V, T>, x: K) -> Link<K, V, T>
    decreases t,
{
    match t {
        None => None,
        Some(n) => if x == n.key {
            t
        } else if key_lt(x, n.key) {
            subtree_at(n.left, x)
        } else {
            subtree_at(n.right, x)
        },
    }
}

/// A search finds the value at the top of the subtree it stops at.
pub proof fn lemma_lookup_is_top<K: Ord, V, T>(t: Link<K, V, T>, x: K)
    ensures
        match subtree_at(t, x) {
            None => lookup(t, x) is None,
            Some(n) => n.key == x && lookup(t, x) == Some(n.value),
        },
    decreases t,
{
    if let Some(n) = t {
        if x == n.key {
        } else if key_lt(x, n.key) {
            lemma_lookup_is_top(n.left, x);
        } else {
            lemma_lookup_is_top(n.right, x);
        }
    }
}

/// Searches `t` for the key `k` and returns the subtree that starts at the
/// node with that key, or the empty subtree where the search runs out.
pub(crate) fn find_node<'a, K: Ord, V, T>(t: &'a Link<K, V, T>, k: &K) -> (r: &'a Link<
    K,
    V,
    T,
>)
    requires
        total_order::<K>(),
    ensures
        *r == subtree_at(*t, *k),
{
    let mut cur = t;
    loop
        invariant
            total_order::<K>(),
            subtree_at(*cur, *k) == subtree_at(*t, *k),
        decreases size(*cur),
    {
        match cur {
            None => {
                return cur;
            },
            Some(n) => {
                match rank(k, &n.key) {
                    Rank::Same => {
                        return cur;
                    },
                    Rank::Below => {
                        cur = &n.left;
                    },
                    Rank::Above => {
                        cur = &n.right;
                    },
                }
            },
        }
    }
}

/// Searches `t` for the key `k` and returns the value stored with it.
pub(crate) fn find<'a, K: Ord, V, T>(t: &'a Link<K, V, T>, k: &K) -> (r: Option<&'a V>)
    requires
        total_order::<K>(),
    ensures
        match r {
            Some(v) => lookup(*t, *k) == Some(*v),
            None => lookup(*t, *k) is None,
        },
{
    proof {
        lemma_lookup_is_top(*t, *k);
    }
    match find_node(t, k) {
        None => None,
        Some(n) => Some(&n.value),
    }
}

/// Counts the nodes on the longest way down from the top of `t`.
pub(crate) fn measure_height<K: Ord, V, T>(t: &Link<K, V, T>) -> (r: usize)
    requires
        size(*t) <= usize::MAX,
    ensures
        r == height(*t),
    decreases *t,
{
    match t {
        None => 0,
        Some(n) => {
            proof {
                lemma_height_le_size(*t);
            }
            let l: usize = measure_height(&n.left);
            let r: usize = measure_height(&n.right);
            if l >= r {
                l + 1
            } else {
                r + 1
            }
        },
    }
}

} // verus!

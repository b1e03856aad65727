//! Walking a tree: the nodes in the order in which a traversal meets them.

use crate::node::{
    bounded, find_node, height, lemma_height_le_size, lookup, size, subtree_at, within, Link,
};
use crate::order::{key_lt, lemma_order_laws, total_order};
use vstd::prelude::*;
use vstd::seq_lib::lemma_multiset_commutative;

verus! {

/// The order in which a traversal visits a node and its two subtrees.
#[derive(Clone, Copy, PartialEq, Eq, Structural, Debug)]
pub enum Route {
    /// Left subtree, node, right subtree: ascending keys.
    InOrder,
    /// Node, left subtree, right subtree.
    PreOrder,
    /// Left subtree, right subtree, node.
    PostOrder,
    /// Right subtree, node, left subtree: descending keys, the order of the
    /// lines when the tree is drawn lying on its side.
    Sideways,
}

/// A node as a traversal meets it. `tag` is the level of the node in an AVL
/// tree and its colour in a red-black tree.
#[derive(Debug)]
pub struct Visit<'a, K, V, T> {
    /// The number of steps down from the node where the traversal started.
    pub depth: usize,
    /// The key of the node.
    pub key: &'a K,
    /// The value stored with the key.
    pub value: &'a V,
    /// The level or the colour of the node.
    pub tag: T,
}

/// The columns between one level and the next where a tree is drawn lying
/// on its side.
pub const PRINT_SPACE_GLOBAL: usize = 5;

/// The column at which a node `depth` levels below the top of a drawing
/// stands, where the top node stands at the column `space`.
pub open spec fn indent_of(space: u32, depth: usize) -> int {
    space + PRINT_SPACE_GLOBAL * depth
}

/// Computes the column at which a node `depth` levels below the top of a
/// drawing stands.
pub fn indent(space: u32, depth: usize) -> (r: usize)
    requires
        indent_of(space, depth) <= usize::MAX,
    ensures
        r == indent_of(space, depth),
{
    space as usize + PRINT_SPACE_GLOBAL * depth
}

/// The visit to the top node of a non-empty subtree at a given depth.
pub open spec fn visit_top<'a, K: Ord, V, T>(t: &'a Link<K, V, T>, depth: usize) -> Visit<
    'a,
    K,
    V,
    T,
>
    recommends
        t is Some,
{
    Visit { depth, key: &t.unwrap().key, value: &t.unwrap().value, tag: t.unwrap().tag }
}

/// The visits of a traversal of `t` that starts at `depth` and goes by
/// `route`.
pub open spec fn tour<'a, K: Ord, V, T>(
    t: &'a Link<K, V, T>,
    depth: usize,
    route: Route,
) -> Seq<Visit<'a, K, V, T>>
    decreases *t,
{
    match *t {
        None => Seq::empty(),
        Some(n) => {
            let here = seq![visit_top(t, depth)];
            let below = (depth + 1) as usize;
            let left = tour(&n.left, below, route);
            let right = tour(&n.right, below, route);
            match route {
                Route::InOrder => left + here + right,
                Route::PreOrder => here + left + right,
                Route::PostOrder => left + right + here,
                Route::Sideways => right + here + left,
            }
        },
    }
}

/// Appends to `out` the visits of a traversal of `t` that starts at `depth`
/// and goes by `route`.
pub(crate) fn walk<'a, K: Ord, V, T: Copy>(
    t: &'a Link<K, V, T>,
    depth: usize,
    route: Route,
    out: &mut Vec<Visit<'a, K, V, T>>,
)
    requires
        depth + height(*t) <= usize::MAX,
    ensures
        final(out)@ == old(out)@ + tour(t, depth, route),
    decreases *t,
{
    match t {
        None => {
            assert(out@ + tour(t, depth, route) =~= out@);
        },
        Some(n) => {
            let here = Visit { depth, key: &n.key, value: &n.value, tag: n.tag };
            let ghost start = out@;
            let ghost left = tour(&n.left, (depth + 1) as usize, route);
            let ghost right = tour(&n.right, (depth + 1) as usize, route);
            match route {
                Route::InOrder => {
                    walk(&n.left, depth + 1, route, out);
                    out.push(here);
                    walk(&n.right, depth + 1, route, out);
                    assert(out@ =~= start + (left + seq![here] + right));
                },
                Route::PreOrder => {
                    out.push(here);
                    walk(&n.left, depth + 1, route, out);
                    walk(&n.right, depth + 1, route, out);
                    assert(out@ =~= start + (seq![here] + left + right));
                },
                Route::PostOrder => {
                    walk(&n.left, depth + 1, route, out);
                    walk(&n.right, depth + 1, route, out);
                    out.push(here);
                    assert(out@ =~= start + (left + right + seq![here]));
                },
                Route::Sideways => {
                    walk(&n.right, depth + 1, route, out);
                    out.push(here);
                    walk(&n.left, depth + 1, route, out);
                    assert(out@ =~= start + (right + seq![here] + left));
                },
            }
        },
    }
}

/// The keys of `s` ascend strictly from each visit to the next.
pub open spec fn ascending<'a, K: Ord, V, T>(s: Seq<Visit<'a, K, V, T>>) -> bool {
    forall|i: int, j: int| 0 <= i < j < s.len() ==> key_lt(*s[i].key, *s[j].key)
}

/// Every route visits each node once.
pub proof fn lemma_tour_len<K: Ord, V, T>(t: &Link<K, V, T>, depth: usize, route: Route)
    ensures
        tour(t, depth, route).len() == size(*t),
    decreases *t,
{
    if let Some(n) = *t {
        lemma_tour_len(&n.left, (depth + 1) as usize, route);
        lemma_tour_len(&n.right, (depth + 1) as usize, route);
    }
}

/// Every route makes the same visits as the in-order route, in its own
/// order.
pub proof fn lemma_tour_same_visits<K: Ord, V, T>(
    t: &Link<K, V, T>,
    depth: usize,
    route: Route,
)
    ensures
        tour(t, depth, route).to_multiset() == tour(t, depth, Route::InOrder).to_multiset(),
    decreases *t,
{
    if let Some(n) = *t {
        let below = (depth + 1) as usize;
        lemma_tour_same_visits(&n.left, below, route);
        lemma_tour_same_visits(&n.right, below, route);
        let here = seq![visit_top(t, depth)];
        let left = tour(&n.left, below, route);
        let right = tour(&n.right, below, route);
        let left_in = tour(&n.left, below, Route::InOrder);
        let right_in = tour(&n.right, below, Route::InOrder);
        lemma_multiset_commutative(left_in, here);
        lemma_multiset_commutative(left_in + here, right_in);
        match route {
            Route::InOrder => {},
            Route::PreOrder => {
                lemma_multiset_commutative(here, left);
                lemma_multiset_commutative(here + left, right);
            },
            Route::PostOrder => {
                lemma_multiset_commutative(left, right);
                lemma_multiset_commutative(left + right, here);
            },
            Route::Sideways => {
                lemma_multiset_commutative(right, here);
                lemma_multiset_commutative(right + here, left);
            },
        }
        assert(tour(t, depth, route).to_multiset() =~= tour(
            t,
            depth,
            Route::InOrder,
        ).to_multiset());
    }
}

/// In a search tree the in-order route meets the keys in strictly ascending
/// order, and each visit shows an entry that a search of the tree finds.
pub proof fn lemma_inorder_ascending<K: Ord, V, T>(
    t: &Link<K, V, T>,
    lo: Option<K>,
    hi: Option<K>,
    depth: usize,
)
    requires
        total_order::<K>(),
        bounded(*t, lo, hi),
    ensures
        ascending(tour(t, depth, Route::InOrder)),
        forall|i: int|
            #![trigger tour(t, depth, Route::InOrder)[i]]
            0 <= i < tour(t, depth, Route::InOrder).len() ==> {
                let at = tour(t, depth, Route::InOrder)[i];
                within(*at.key, lo, hi) && lookup(*t, *at.key) == Some(*at.value)
            },
    decreases *t,
{
    lemma_order_laws::<K>();
    if let Some(n) = *t {
        let below = (depth + 1) as usize;
        let left = tour(&n.left, below, Route::InOrder);
        let right = tour(&n.right, below, Route::InOrder);
        let all = tour(t, depth, Route::InOrder);
        lemma_inorder_ascending(&n.left, lo, Some(n.key), below);
        lemma_inorder_ascending(&n.right, Some(n.key), hi, below);
        assert(all =~= left + seq![visit_top(t, depth)] + right);
        assert forall|i: int| #![trigger all[i]] 0 <= i < all.len() implies {
            &&& within(*all[i].key, lo, hi)
            &&& lookup(*t, *all[i].key) == Some(*all[i].value)
            &&& i < left.len() ==> key_lt(*all[i].key, n.key)
            &&& i == left.len() ==> *all[i].key == n.key
            &&& i > left.len() ==> key_lt(n.key, *all[i].key)
        } by {
            if i < left.len() {
                assert(all[i] == left[i]);
            } else if i > left.len() {
                assert(all[i] == right[i - left.len() - 1]);
            }
        }
        assert forall|i: int, j: int| 0 <= i < j < all.len() implies key_lt(
            *all[i].key,
            *all[j].key,
        ) by {
            if j < left.len() {
                assert(all[i] == left[i] && all[j] == left[j]);
            } else if i > left.len() {
                assert(all[i] == right[i - left.len() - 1]);
                assert(all[j] == right[j - left.len() - 1]);
            } else {
                assert(within(*all[i].key, lo, hi));
                assert(within(*all[j].key, lo, hi));
            }
        }
    }
}

/// Every visit of any route shows an entry that a search of the tree finds.
pub proof fn lemma_tour_shows_entries<K: Ord, V, T>(
    t: &Link<K, V, T>,
    lo: Option<K>,
    hi: Option<K>,
    depth: usize,
    route: Route,
)
    requires
        total_order::<K>(),
        bounded(*t, lo, hi),
    ensures
        forall|i: int|
            #![trigger tour(t, depth, route)[i]]
            0 <= i < tour(t, depth, route).len() ==> {
                let at = tour(t, depth, route)[i];
                within(*at.key, lo, hi) && lookup(*t, *at.key) == Some(*at.value)
            },
{
    let all = tour(t, depth, route);
    let sorted = tour(t, depth, Route::InOrder);
    lemma_tour_same_visits(t, depth, route);
    lemma_inorder_ascending(t, lo, hi, depth);
    all.to_multiset_ensures();
    sorted.to_multiset_ensures();
    assert forall|i: int| #![trigger all[i]] 0 <= i < all.len() implies within(
        *all[i].key,
        lo,
        hi,
    ) && lookup(*t, *all[i].key) == Some(*all[i].value) by {
        assert(all.contains(all[i]));
        assert(all.to_multiset().count(all[i]) > 0);
        assert(sorted.to_multiset().count(all[i]) > 0);
        assert(sorted.contains(all[i]));
        let j = choose|j: int| 0 <= j < sorted.len() && sorted[j] == all[i];
        assert(sorted[j] == all[i]);
    }
}

/// The visits of a traversal of the whole of `t` by `route`.
pub(crate) fn traverse<'a, K: Ord, V, T: Copy>(t: &'a Link<K, V, T>, route: Route) -> (r: Vec<
    Visit<'a, K, V, T>,
>)
    requires
        total_order::<K>(),
        bounded(*t, None, None),
        size(*t) <= usize::MAX,
    ensures
        r@ == tour(t, 0, route),
        r@.len() == size(*t),
        r@.to_multiset() == tour(t, 0, Route::InOrder).to_multiset(),
        route == Route::InOrder ==> ascending(r@),
        forall|i: int|
            #![trigger r@[i]]
            0 <= i < r@.len() ==> lookup(*t, *r@[i].key) == Some(*r@[i].value),
{
    proof {
        lemma_height_le_size(*t);
        lemma_tour_len(t, 0, route);
        lemma_tour_same_visits(t, 0, route);
        lemma_tour_shows_entries(t, None, None, 0, route);
        lemma_inorder_ascending(t, None, None, 0);
    }
    let mut out = Vec::new();
    walk(t, 0, route, &mut out);
    assert(out@ =~= tour(t, 0, route));
    out
}

/// The subtree that a search for `k` stops at is a search tree like the
/// whole, between bounds of its own, and what a search finds in it, a search
/// of the whole finds too.
pub proof fn lemma_subtree_is_part<K: Ord, V, T>(
    t: Link<K, V, T>,
    lo: Option<K>,
    hi: Option<K>,
    k: K,
) -> (b: (Option<K>, Option<K>))
    requires
        total_order::<K>(),
        bounded(t, lo, hi),
    ensures
        bounded(subtree_at(t, k), b.0, b.1),
        size(subtree_at(t, k)) <= size(t),
        forall|x: K|
            #![trigger lookup(subtree_at(t, k), x)]
            lookup(subtree_at(t, k), x) is Some ==> lookup(t, x) == lookup(subtree_at(t, k), x),
    decreases t,
{
    lemma_order_laws::<K>();
    match t {
        None => (lo, hi),
        Some(n) => {
            if k == n.key {
                (lo, hi)
            } else if key_lt(k, n.key) {
                let b = lemma_subtree_is_part(n.left, lo, Some(n.key), k);
                assert forall|x: K| #![trigger lookup(subtree_at(t, k), x)]
                    lookup(subtree_at(t, k), x) is Some implies lookup(t, x) == lookup(
                    subtree_at(t, k),
                    x,
                ) by {
                    assert(lookup(n.left, x) == lookup(subtree_at(n.left, k), x));
                    crate::node::lemma_found_within(n.left, lo, Some(n.key), x);
                }
                b
            } else {
                let b = lemma_subtree_is_part(n.right, Some(n.key), hi, k);
                assert forall|x: K| #![trigger lookup(subtree_at(t, k), x)]
                    lookup(subtree_at(t, k), x) is Some implies lookup(t, x) == lookup(
                    subtree_at(t, k),
                    x,
                ) by {
                    assert(lookup(n.right, x) == lookup(subtree_at(n.right, k), x));
                    crate::node::lemma_found_within(n.right, Some(n.key), hi, x);
                }
                b
            }
        },
    }
}

/// The visits of a traversal by `route` of the subtree of `t` that starts
/// at the node with key `k`; none where `t` has no such node.
pub(crate) fn traverse_from<'a, K: Ord, V, T: Copy>(
    t: &'a Link<K, V, T>,
    k: &K,
    route: Route,
) -> (r: Vec<Visit<'a, K, V, T>>)
    requires
        total_order::<K>(),
        bounded(*t, None, None),
        size(*t) <= usize::MAX,
    ensures
        r@ == tour(&subtree_at(*t, *k), 0, route),
        lookup(*t, *k) is None <==> r@.len() == 0,
        route == Route::InOrder ==> ascending(r@),
        forall|i: int|
            #![trigger r@[i]]
            0 <= i < r@.len() ==> lookup(*t, *r@[i].key) == Some(*r@[i].value),
{
    let part = find_node(t, k);
    proof {
        let b = lemma_subtree_is_part(*t, None, None, *k);
        crate::node::lemma_lookup_is_top(*t, *k);
        lemma_height_le_size(*part);
        lemma_tour_len(part, 0, route);
        lemma_tour_shows_entries(part, b.0, b.1, 0, route);
        lemma_inorder_ascending(part, b.0, b.1, 0);
        assert forall|i: int| #![trigger tour(part, 0, route)[i]]
            0 <= i < tour(part, 0, route).len() implies lookup(
            *t,
            *tour(part, 0, route)[i].key,
        ) == Some(*tour(part, 0, route)[i].value) by {
            let at = tour(part, 0, route)[i];
            assert(lookup(*part, *at.key) == Some(*at.value));
            assert(lookup(subtree_at(*t, *k), *at.key) is Some);
        }
    }
    let mut out = Vec::new();
    walk(part, 0, route, &mut out);
    assert(out@ =~= tour(part, 0, route));
    out
}

} // verus!

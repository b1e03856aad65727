//! A colour-balanced binary search tree.

pub mod color;
pub mod insert;
pub mod remove;
pub mod rotate;

pub use crate::red_black::color::NodeColor;

use crate::model::{after_insert, after_remove, found, taken};
use crate::node::{
    bounded, contents, find, height, lemma_bounded_is_ordered, lemma_contents_with,
    lemma_contents_without, lemma_height_le_size, lemma_ordered_is_bounded, lemma_size_is_len,
    lemma_size_lt_pow2, lookup, measure_height, ordered, size, subtree_at, Link,
};
use crate::order::total_order;
use crate::red_black::color::{
    black_balanced, black_height, blacks_on, is_red, leads_out, lemma_black_height_size,
    lemma_blacks_on_every_way, lemma_height_black_height, lemma_pow2_ascends, no_red_red, paint,
    painted,
};
use crate::red_black::insert::{insert_into, with_entry};
use crate::red_black::remove::{delete, without_entry};
use crate::walk::{
    ascending, lemma_inorder_ascending, lemma_tour_len, tour, traverse, traverse_from, Route, Visit,
};
use vstd::arithmetic::power2::pow2;
use vstd::prelude::*;

verus! {

/// Why an insertion was refused.
#[derive(Debug, PartialEq, Eq, Structural, Clone, Copy)]
pub enum RBBaseErr {
    /// The key is already in the tree.
    DuplicateErr,
}

/// An ordered map from `K` to `V`, held as a red-black tree.
#[derive(Debug)]
pub struct RBTree<K: Ord, V> {
    root: Link<K, V, NodeColor>,
    len: usize,
}

impl<K: Ord, V> View for RBTree<K, V> {
    type V = Map<K, V>;

    /// The entries of the tree.
    open spec fn view(&self) -> Map<K, V> {
        contents(self.shape())
    }
}

impl<K: Ord, V> RBTree<K, V> {
    /// The nodes of the tree, from the root down.
    pub closed spec fn shape(&self) -> Link<K, V, NodeColor> {
        self.root
    }

    /// What holds of every tree: the keys are totally ordered, the tree is a
    /// search tree, it obeys the three colour rules, and the stored count is
    /// the number of its nodes.
    #[verifier::type_invariant]
    pub open spec fn wf(&self) -> bool {
        &&& total_order::<K>()
        &&& self.is_search_tree()
        &&& self.root_is_black()
        &&& self.no_red_red()
        &&& self.black_balanced()
        &&& self.is_counted()
    }

    /// The stored count is the number of nodes.
    pub closed spec fn is_counted(&self) -> bool {
        self.len == size(self.root)
    }

    /// At every node the keys to the left are smaller than the node's key
    /// and the keys to the right are larger.
    pub open spec fn is_search_tree(&self) -> bool {
        ordered(self.shape())
    }

    /// The root is black. An empty tree counts as black.
    pub open spec fn root_is_black(&self) -> bool {
        !is_red(self.shape())
    }

    /// No red node has a red child.
    pub open spec fn no_red_red(&self) -> bool {
        no_red_red(self.shape())
    }

    /// Every way from a node down to an empty place passes the same number
    /// of black nodes.
    pub open spec fn black_balanced(&self) -> bool {
        black_balanced(self.shape())
    }

    /// The number of black nodes on the way from the root down the left edge
    /// of the tree.
    pub open spec fn black_height(&self) -> nat {
        black_height(self.shape())
    }

    /// Whether the way that takes `turns` from the root, `false` for a step
    /// to the left and `true` for a step to the right, passes through nodes
    /// only and ends at an empty place.
    pub open spec fn leads_out(&self, turns: Seq<bool>) -> bool {
        leads_out(self.shape(), turns)
    }

    /// The number of black nodes that the way by `turns` from the root
    /// passes.
    pub open spec fn blacks_on(&self, turns: Seq<bool>) -> nat {
        blacks_on(self.shape(), turns)
    }

    /// The number of nodes on the longest way from the root down; 0 for the
    /// empty tree.
    pub open spec fn height(&self) -> nat {
        height(self.shape())
    }

    /// The visits that a traversal of the whole tree by `route` makes, in
    /// their order, with depth 0 at the root.
    pub open spec fn tour<'a>(&'a self, route: Route) -> Seq<Visit<'a, K, V, NodeColor>> {
        tour(&self.shape(), 0, route)
    }

    /// The visits that a traversal by `route` makes of the part of the tree
    /// that starts at the node with key `k`, with depth 0 at that node; none
    /// where the tree has no such node.
    pub open spec fn tour_from<'a>(&'a self, k: K, route: Route) -> Seq<
        Visit<'a, K, V, NodeColor>,
    > {
        tour(&subtree_at(self.shape(), k), 0, route)
    }

    /// The in-order route over a tree meets the keys in strictly ascending
    /// order, and it meets exactly the entries of the map.
    pub proof fn lemma_in_order_ascends(&self)
        requires
            self.wf(),
        ensures
            ascending(self.tour(Route::InOrder)),
            self.tour(Route::InOrder).len() == self@.len(),
            forall|i: int|
                #![trigger self.tour(Route::InOrder)[i]]
                0 <= i < self.tour(Route::InOrder).len() ==> found(
                    self@,
                    *self.tour(Route::InOrder)[i].key,
                ) == Some(*self.tour(Route::InOrder)[i].value),
    {
        lemma_ordered_is_bounded(self.root, None, None);
        lemma_inorder_ascending(&self.root, None, None, 0);
        lemma_tour_len(&self.root, 0, Route::InOrder);
        lemma_size_is_len(self.root, None, None);
    }

    /// Every way from the root down to an empty place passes the same number
    /// of black nodes: the black height of the tree.
    pub proof fn lemma_blacks_on_every_way(&self, turns: Seq<bool>)
        requires
            self.wf(),
            self.leads_out(turns),
        ensures
            self.blacks_on(turns) == self.black_height(),
    {
        lemma_blacks_on_every_way(self.root, turns);
    }

    /// A tree of height `h` has at least `2^(h/2) - 1` entries, with the
    /// half rounded up, so the height is at most about twice the logarithm
    /// of the number of entries; and like every binary tree it has fewer
    /// than `2^h` entries.
    pub proof fn lemma_height_bound(&self)
        requires
            self.wf(),
        ensures
            pow2((self.height() + 1) / 2) <= self@.len() + 1,
            self@.len() + 1 <= pow2(self.height()),
    {
        lemma_ordered_is_bounded(self.root, None, None);
        lemma_size_lt_pow2(self.root);
        lemma_black_height_size(self.root);
        lemma_height_black_height(self.root);
        lemma_pow2_ascends((self.height() + 1) / 2, black_height(self.root));
        lemma_size_is_len(self.root, None, None);
    }

    /// An empty tree.
    pub fn new() -> (tree: Self)
        requires
            total_order::<K>(),
        ensures
            tree.shape() is None,
            tree@ == Map::<K, V>::empty(),
            tree.wf(),
    {
        let tree = RBTree { root: None, len: 0 };
        assert(tree@ =~= Map::<K, V>::empty());
        tree
    }

    /// The number of entries.
    pub fn len(&self) -> (n: usize)
        ensures
            n == self@.len(),
    {
        proof {
            use_type_invariant(self);
            lemma_ordered_is_bounded(self.root, None, None);
            lemma_size_is_len(self.root, None, None);
        }
        self.len
    }

    /// Whether the tree has no entry.
    pub fn is_empty(&self) -> (b: bool)
        ensures
            b == (self@.len() == 0),
            b == (self@ == Map::<K, V>::empty()),
    {
        proof {
            use_type_invariant(self);
            lemma_ordered_is_bounded(self.root, None, None);
            lemma_size_is_len(self.root, None, None);
            if self.root is None {
                assert(self@ =~= Map::<K, V>::empty());
            }
        }
        self.root.is_none()
    }

    /// The height of the tree.
    pub fn get_height(&self) -> (h: Option<usize>)
        ensures
            h is Some,
            h.unwrap() == self.height(),
            self.height() <= self@.len(),
    {
        proof {
            use_type_invariant(self);
            lemma_ordered_is_bounded(self.root, None, None);
            lemma_size_is_len(self.root, None, None);
            lemma_height_le_size(self.root);
        }
        Some(measure_height(&self.root))
    }

    /// The value stored with `k`, if `k` is in the tree.
    pub fn find_node(&self, k: &K) -> (r: Option<&V>)
        ensures
            match r {
                Some(v) => found(self@, *k) == Some(*v),
                None => found(self@, *k) is None,
            },
    {
        proof {
            use_type_invariant(self);
            lemma_ordered_is_bounded(self.root, None, None);
        }
        find(&self.root, k)
    }

    /// Walks the whole tree by `route` and returns what it meets. Every
    /// route meets each entry of the map once; the in-order route meets the
    /// keys in strictly ascending order.
    pub fn traverse(&self, route: Route) -> (r: Vec<Visit<'_, K, V, NodeColor>>)
        ensures
            r@ == self.tour(route),
            r@.len() == self@.len(),
            r@.to_multiset() == self.tour(Route::InOrder).to_multiset(),
            route == Route::InOrder ==> ascending(r@),
            forall|i: int|
                #![trigger r@[i]]
                0 <= i < r@.len() ==> self@.contains_key(*r@[i].key) && self@[*r@[i].key]
                    == *r@[i].value,
    {
        proof {
            use_type_invariant(self);
            lemma_ordered_is_bounded(self.root, None, None);
            lemma_size_is_len(self.root, None, None);
        }
        traverse(&self.root, route)
    }

    /// Walks by `route` the part of the tree that starts at the node with
    /// key `k`, and returns what it meets: nothing where the tree has no
    /// such key, else entries of the map, the one with key `k` among them.
    pub fn traverse_from(&self, k: &K, route: Route) -> (r: Vec<Visit<'_, K, V, NodeColor>>)
        ensures
            r@ == self.tour_from(*k, route),
            self@.contains_key(*k) <==> r@.len() > 0,
            route == Route::InOrder ==> ascending(r@),
            forall|i: int|
                #![trigger r@[i]]
                0 <= i < r@.len() ==> self@.contains_key(*r@[i].key) && self@[*r@[i].key]
                    == *r@[i].value,
    {
        proof {
            use_type_invariant(self);
            lemma_ordered_is_bounded(self.root, None, None);
            lemma_size_is_len(self.root, None, None);
        }
        traverse_from(&self.root, k, route)
    }

    /// Adds the entry `k`, `v` unless the tree already has the key `k`; in
    /// that case nothing changes and the error says so. The root is black
    /// afterwards, whatever the insertion did to it.
    pub fn insert(&mut self, k: K, v: V) -> (r: Result<(), RBBaseErr>)
        requires
            old(self)@.len() < usize::MAX,
        ensures
            final(self).wf(),
            final(self).is_search_tree(),
            final(self).root_is_black(),
            final(self).no_red_red(),
            final(self).black_balanced(),
            r == if old(self)@.contains_key(k) {
                Err::<(), RBBaseErr>(RBBaseErr::DuplicateErr)
            } else {
                Ok::<(), RBBaseErr>(())
            },
            final(self)@ == after_insert(old(self)@, k, v),
            final(self).shape() == if r is Ok {
                painted(with_entry(old(self).shape(), k, v), NodeColor::Black)
            } else {
                old(self).shape()
            },
            r is Err ==> *final(self) == *old(self),
            r is Ok ==> final(self)@.len() == old(self)@.len() + 1,
            final(self).black_height() == old(self).black_height() || final(self).black_height()
                == old(self).black_height() + 1,
    {
        proof {
            use_type_invariant(&*self);
            lemma_ordered_is_bounded(self.root, None, None);
            lemma_size_is_len(self.root, None, None);
        }
        let mut held = RBTree { root: None, len: 0 };
        std::mem::swap(self, &mut held);
        let RBTree { root: before, len } = held;
        let (grown, fresh) = insert_into(before, k, v, Ghost(None), Ghost(None));
        if fresh {
            let root = paint(grown, NodeColor::Black);
            proof {
                reveal_with_fuel(bounded, 2);
                reveal_with_fuel(size, 2);
                reveal_with_fuel(no_red_red, 2);
                reveal_with_fuel(black_balanced, 2);
                reveal_with_fuel(black_height, 2);
                assert forall|x: K| lookup(root, x) == if x == k {
                    Some(v)
                } else {
                    lookup(before, x)
                } by {
                    reveal_with_fuel(lookup, 2);
                    assert(lookup(grown, x) == if x == k {
                        Some(v)
                    } else {
                        lookup(before, x)
                    });
                }
                lemma_size_is_len(root, None, None);
                lemma_bounded_is_ordered(root, None, None);
                lemma_contents_with(before, root, k, v);
            }
            *self = RBTree { root, len: len + 1 };
            Ok(())
        } else {
            *self = RBTree { root: grown, len };
            Err(RBBaseErr::DuplicateErr)
        }
    }

    /// Takes the entry with key `k` out of the tree and returns it; where
    /// the tree has no such key, nothing changes.
    pub fn remove_node(&mut self, k: &K) -> (r: Option<(K, V)>)
        ensures
            final(self).wf(),
            final(self).is_search_tree(),
            final(self).root_is_black(),
            final(self).no_red_red(),
            final(self).black_balanced(),
            r == taken(old(self)@, *k),
            final(self)@ == after_remove(old(self)@, *k),
            final(self).shape() == if r is Some {
                without_entry(old(self).shape(), *k).0
            } else {
                old(self).shape()
            },
            r is None ==> *final(self) == *old(self),
            r is Some ==> final(self)@.len() + 1 == old(self)@.len(),
            final(self).black_height() == old(self).black_height() || final(self).black_height()
                + 1 == old(self).black_height(),
    {
        proof {
            use_type_invariant(&*self);
            lemma_ordered_is_bounded(self.root, None, None);
            lemma_size_is_len(self.root, None, None);
        }
        let mut held = RBTree { root: None, len: 0 };
        std::mem::swap(self, &mut held);
        let RBTree { root: before, len } = held;
        let (root, gone, _) = delete(before, k, Ghost(None), Ghost(None));
        match gone {
            None => {
                *self = RBTree { root, len };
                None
            },
            Some(entry) => {
                proof {
                    lemma_size_is_len(root, None, None);
                    lemma_bounded_is_ordered(root, None, None);
                    lemma_contents_without(before, root, *k);
                }
                *self = RBTree { root, len: len - 1 };
                Some(entry)
            },
        }
    }
}

} // verus!

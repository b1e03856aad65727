//! A height-balanced binary search tree.

pub mod balance;
pub mod edit;

use crate::avl::balance::{balanced, fib, lemma_balanced_size};
use crate::avl::edit::{delete, insert_into, with_entry, without_entry};
use crate::model::{after_insert, after_remove, found, taken};
use crate::node::{
    contents, find, height, lemma_bounded_is_ordered, lemma_contents_with,
    lemma_contents_without, lemma_height_le_size, lemma_ordered_is_bounded, lemma_size_is_len,
    lemma_size_lt_pow2, measure_height, ordered, size, subtree_at, Link,
};
use crate::order::total_order;
use crate::walk::{
    ascending, lemma_inorder_ascending, lemma_tour_len, tour, traverse, traverse_from, Route, Visit,
};
use vstd::arithmetic::power2::pow2;
use vstd::prelude::*;

verus! {

/// Why an insertion was refused.
#[derive(Debug, PartialEq, Eq, Structural, Clone, Copy)]
pub enum AVLBaseErr {
    /// The key is already in the tree.
    DuplicateErr,
}

/// An ordered map from `K` to `V`, held as an AVL tree.
#[derive(Debug)]
pub struct AVLTree<K: Ord, V> {
    root: Link<K, V, usize>,
    len: usize,
}

impl<K: Ord, V> View for AVLTree<K, V> {
    type V = Map<K, V>;

    /// The entries of the tree.
    open spec fn view(&self) -> Map<K, V> {
        contents(self.shape())
    }
}

impl<K: Ord, V> AVLTree<K, V> {
    /// The nodes of the tree, from the root down.
    pub closed spec fn shape(&self) -> Link<K, V, usize> {
        self.root
    }

    /// What holds of every tree: the keys are totally ordered, the tree is a
    /// search tree, it is balanced, and the stored count is the number of
    /// its nodes.
    #[verifier::type_invariant]
    pub open spec fn wf(&self) -> bool {
        &&& total_order::<K>()
        &&& self.is_search_tree()
        &&& self.is_balanced()
        &&& self.is_counted()
    }

    /// The stored count is the number of nodes.
    pub closed spec fn is_counted(&self) -> bool {
        self.len == size(self.root)
    }

    /// At every node the keys to the left are smaller than the node's key
    /// and the keys to the right are larger.
    pub open spec fn is_search_tree(&self) -> bool {
        ordered(self.shape())
    }

    /// At every node the heights of the two subtrees differ by at most one,
    /// and the level stored at the node is the height of its subtree.
    pub open spec fn is_balanced(&self) -> bool {
        balanced(self.shape())
    }

    /// The number of nodes on the longest way from the root down; 0 for the
    /// empty tree.
    pub open spec fn height(&self) -> nat {
        height(self.shape())
    }

    /// The visits that a traversal of the whole tree by `route` makes, in
    /// their order, with depth 0 at the root.
    pub open spec fn tour<'a>(&'a self, route: Route) -> Seq<Visit<'a, K, V, usize>> {
        tour(&self.shape(), 0, route)
    }

    /// The visits that a traversal by `route` makes of the part of the tree
    /// that starts at the node with key `k`, with depth 0 at that node; none
    /// where the tree has no such node.
    pub open spec fn tour_from<'a>(&'a self, k: K, route: Route) -> Seq<
        Visit<'a, K, V, usize>,
    > {
        tour(&subtree_at(self.shape(), k), 0, route)
    }

    /// The in-order route over a tree meets the keys in strictly ascending
    /// order, and it meets exactly the entries of the map.
    pub proof fn lemma_in_order_ascends(&self)
        requires
            self.wf(),
        ensures
            ascending(self.tour(Route::InOrder)),
            self.tour(Route::InOrder).len() == self@.len(),
            forall|i: int|
                #![trigger self.tour(Route::InOrder)[i]]
                0 <= i < self.tour(Route::InOrder).len() ==> found(
                    self@,
                    *self.tour(Route::InOrder)[i].key,
                ) == Some(*self.tour(Route::InOrder)[i].value),
    {
        lemma_ordered_is_bounded(self.root, None, None);
        lemma_inorder_ascending(&self.root, None, None, 0);
        lemma_tour_len(&self.root, 0, Route::InOrder);
        lemma_size_is_len(self.root, None, None);
    }

    /// A tree of height `h` has at least `fib(h + 2) - 1` entries, so the
    /// height grows only with the logarithm of the number of entries; and
    /// like every binary tree it has fewer than `2^h` entries.
    pub proof fn lemma_height_bound(&self)
        requires
            self.wf(),
        ensures
            fib(self.height() + 2) <= self@.len() + 1,
            self@.len() + 1 <= pow2(self.height()),
    {
        lemma_ordered_is_bounded(self.root, None, None);
        lemma_balanced_size(self.root);
        lemma_size_lt_pow2(self.root);
        lemma_size_is_len(self.root, None, None);
    }

    /// An empty tree.
    pub fn new() -> (tree: Self)
        requires
            total_order::<K>(),
        ensures
            tree.shape() is None,
            tree@ == Map::<K, V>::empty(),
            tree.wf(),
    {
        let tree = AVLTree { root: None, len: 0 };
        assert(tree@ =~= Map::<K, V>::empty());
        tree
    }

    /// The number of entries.
    pub fn len(&self) -> (n: usize)
        ensures
            n == self@.len(),
    {
        proof {
            use_type_invariant(self);
            lemma_ordered_is_bounded(self.root, None, None);
            lemma_size_is_len(self.root, None, None);
        }
        self.len
    }

    /// Whether the tree has no entry.
    pub fn is_empty(&self) -> (b: bool)
        ensures
            b == (self@.len() == 0),
            b == (self@ == Map::<K, V>::empty()),
    {
        proof {
            use_type_invariant(self);
            lemma_ordered_is_bounded(self.root, None, None);
            lemma_size_is_len(self.root, None, None);
            if self.root is None {
                assert(self@ =~= Map::<K, V>::empty());
            }
        }
        self.root.is_none()
    }

    /// The height of the tree.
    pub fn get_height(&self) -> (h: Option<usize>)
        ensures
            h is Some,
            h.unwrap() == self.height(),
            self.height() <= self@.len(),
    {
        proof {
            use_type_invariant(self);
            lemma_ordered_is_bounded(self.root, None, None);
            lemma_size_is_len(self.root, None, None);
            lemma_height_le_size(self.root);
        }
        Some(measure_height(&self.root))
    }

    /// The value stored with `k`, if `k` is in the tree.
    pub fn find_node(&self, k: &K) -> (r: Option<&V>)
        ensures
            match r {
                Some(v) => found(self@, *k) == Some(*v),
                None => found(self@, *k) is None,
            },
    {
        proof {
            use_type_invariant(self);
            lemma_ordered_is_bounded(self.root, None, None);
        }
        find(&self.root, k)
    }

    /// Walks the whole tree by `route` and returns what it meets. Every
    /// route meets each entry of the map once; the in-order route meets the
    /// keys in strictly ascending order.
    pub fn traverse(&self, route: Route) -> (r: Vec<Visit<'_, K, V, usize>>)
        ensures
            r@ == self.tour(route),
            r@.len() == self@.len(),
            r@.to_multiset() == self.tour(Route::InOrder).to_multiset(),
            route == Route::InOrder ==> ascending(r@),
            forall|i: int|
                #![trigger r@[i]]
                0 <= i < r@.len() ==> self@.contains_key(*r@[i].key) && self@[*r@[i].key]
                    == *r@[i].value,
    {
        proof {
            use_type_invariant(self);
            lemma_ordered_is_bounded(self.root, None, None);
            lemma_size_is_len(self.root, None, None);
        }
        traverse(&self.root, route)
    }

    /// Walks by `route` the part of the tree that starts at the node with
    /// key `k`, and returns what it meets: nothing where the tree has no
    /// such key, else entries of the map, the one with key `k` among them.
    pub fn traverse_from(&self, k: &K, route: Route) -> (r: Vec<Visit<'_, K, V, usize>>)
        ensures
            r@ == self.tour_from(*k, route),
            self@.contains_key(*k) <==> r@.len() > 0,
            route == Route::InOrder ==> ascending(r@),
            forall|i: int|
                #![trigger r@[i]]
                0 <= i < r@.len() ==> self@.contains_key(*r@[i].key) && self@[*r@[i].key]
                    == *r@[i].value,
    {
        proof {
            use_type_invariant(self);
            lemma_ordered_is_bounded(self.root, None, None);
            lemma_size_is_len(self.root, None, None);
        }
        traverse_from(&self.root, k, route)
    }

    /// Adds the entry `k`, `v` unless the tree already has the key `k`; in
    /// that case nothing changes and the error says so.
    pub fn insert(&mut self, k: K, v: V) -> (r: Result<(), AVLBaseErr>)
        requires
            old(self)@.len() < usize::MAX,
        ensures
            final(self).wf(),
            final(self).is_search_tree(),
            final(self).is_balanced(),
            r == if old(self)@.contains_key(k) {
                Err::<(), AVLBaseErr>(AVLBaseErr::DuplicateErr)
            } else {
                Ok::<(), AVLBaseErr>(())
            },
            final(self)@ == after_insert(old(self)@, k, v),
            final(self).shape() == if r is Ok {
                with_entry(old(self).shape(), k, v)
            } else {
                old(self).shape()
            },
            r is Err ==> *final(self) == *old(self),
            r is Ok ==> final(self)@.len() == old(self)@.len() + 1,
            final(self).height() == old(self).height() || final(self).height() == old(
                self,
            ).height() + 1,
    {
        proof {
            use_type_invariant(&*self);
            lemma_ordered_is_bounded(self.root, None, None);
            lemma_size_is_len(self.root, None, None);
        }
        let mut held = AVLTree { root: None, len: 0 };
        std::mem::swap(self, &mut held);
        let AVLTree { root: before, len } = held;
        let (root, fresh) = insert_into(before, k, v, Ghost(None), Ghost(None));
        if fresh {
            proof {
                lemma_size_is_len(root, None, None);
                lemma_bounded_is_ordered(root, None, None);
                lemma_contents_with(before, root, k, v);
            }
            *self = AVLTree { root, len: len + 1 };
            Ok(())
        } else {
            *self = AVLTree { root, len };
            Err(AVLBaseErr::DuplicateErr)
        }
    }

    /// Takes the entry with key `k` out of the tree and returns it; where
    /// the tree has no such key, nothing changes.
    pub fn remove_node(&mut self, k: &K) -> (r: Option<(K, V)>)
        ensures
            final(self).wf(),
            final(self).is_search_tree(),
            final(self).is_balanced(),
            r == taken(old(self)@, *k),
            final(self)@ == after_remove(old(self)@, *k),
            final(self).shape() == if r is Some {
                without_entry(old(self).shape(), *k)
            } else {
                old(self).shape()
            },
            r is None ==> *final(self) == *old(self),
            r is Some ==> final(self)@.len() + 1 == old(self)@.len(),
            final(self).height() == old(self).height() || final(self).height() + 1 == old(
                self,
            ).height(),
    {
        proof {
            use_type_invariant(&*self);
            lemma_ordered_is_bounded(self.root, None, None);
            lemma_size_is_len(self.root, None, None);
        }
        let mut held = AVLTree { root: None, len: 0 };
        std::mem::swap(self, &mut held);
        let AVLTree { root: before, len } = held;
        let (root, gone) = delete(before, k, Ghost(None), Ghost(None));
        match gone {
            None => {
                *self = AVLTree { root, len };
                None
            },
            Some(entry) => {
                proof {
                    lemma_size_is_len(root, None, None);
                    lemma_bounded_is_ordered(root, None, None);
                    lemma_contents_without(before, root, *k);
                }
                *self = AVLTree { root, len: len - 1 };
                Some(entry)
            },
        }
    }
}

} // verus!

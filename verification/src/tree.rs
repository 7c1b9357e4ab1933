//! The container: a tree that owns zero or one root node.

use crate::node::{
    child, grafted, in_order_of, is_copy_of, is_search_tree_of, lemma_grafted_leaf, lookup_in,
    Node,
};
use crate::order::{enters_at, lemma_comparisons_follow_spec, occurs, same, total_order};
use crate::walk::{accepts, walk_ends, ControlSignal};
use std::cmp::Ordering;
use vstd::prelude::*;

verus! {

/// A binary search tree keyed by a totally ordered value. It is not
/// balanced: values that arrive in ascending order form a chain. Values
/// that hold the same place as one already present are kept, each to the
/// left of the first node it meets on its way down that holds its place.
#[derive(Debug, Eq, Ord, PartialEq, PartialOrd)]
pub struct Bst<T> {
    root: Option<Box<Node<T>>>,
}

impl<T> Bst<T> {
    /// What hangs at the root: nothing in an empty tree.
    pub closed spec fn root_slot(self) -> Option<Box<Node<T>>> {
        self.root
    }

    /// The values of the tree as an in-order walk meets them.
    pub open spec fn in_order(self) -> Seq<T> {
        in_order_of(self.root_slot())
    }

    /// The empty tree.
    pub fn new() -> (tree: Self)
        ensures
            tree.root_slot() is None,
            tree@ == Seq::<T>::empty(),
    {
        Bst { root: None }
    }

    /// The root node with all that hangs below it; `None` in an empty tree.
    pub fn root(&self) -> (node: Option<&Node<T>>)
        ensures
            node == (match self.root_slot() {
                Some(boxed) => Some(&*boxed),
                None => None,
            }),
    {
        child(&self.root)
    }

    /// Walks the tree in order and shows each value to `visitor` until it
    /// answers `Stop`; that answer is handed back at once, and no later value
    /// is shown. On an empty tree, and where the visitor never stops, the
    /// result is `Continue`.
    pub fn traverse<R, F: Fn(&T) -> ControlSignal<R>>(&self, visitor: F) -> (signal: ControlSignal<
        R,
    >)
        requires
            accepts(visitor, self@),
        ensures
            exists|n: int| walk_ends(visitor, self@, n, signal),
    {
        match &self.root {
            Some(node) => node.traverse(&visitor),
            None => {
                let signal = ControlSignal::Continue;
                assert(walk_ends(visitor, self@, 0, signal));
                signal
            },
        }
    }
}

impl<T> View for Bst<T> {
    type V = Seq<T>;

    open spec fn view(&self) -> Seq<T> {
        self.in_order()
    }
}

impl<T: Clone> Clone for Bst<T> {
    /// A tree of the same shape that holds a clone of each value.
    fn clone(&self) -> (copy: Self)
        ensures
            is_copy_of(copy.root_slot(), self.root_slot()),
    {
        let root = match &self.root {
            Some(node) => Some(Box::new((&**node).clone())),
            None => None,
        };
        Bst { root }
    }
}

impl<T> Default for Bst<T> {
    /// The empty tree.
    fn default() -> (tree: Self)
        ensures
            tree.root_slot() is None,
            tree@ == Seq::<T>::empty(),
    {
        Bst { root: None }
    }
}

impl<T: Ord> Bst<T> {
    /// The search-tree property of the whole tree: at every node the values
    /// to its left come before its own or hold its place, and the values to
    /// its right come strictly after it.
    pub open spec fn well_formed(self) -> bool {
        is_search_tree_of(self.root_slot())
    }

    /// The tree whose root is a leaf that holds `value`.
    pub fn from_value(value: T) -> (tree: Self)
        ensures
            tree.root_slot() == Some(Box::new(Node::leaf(value))),
            tree@ == seq![value],
            tree.well_formed(),
    {
        let root = Box::new(Node::leaf(value));
        assert(root.is_search_tree());
        Bst { root: Some(root) }
    }

    /// Adds `value` as a new leaf. Nothing that was in the tree moves or
    /// leaves: the leaf goes down from the root, to the left of each node
    /// whose value it does not exceed and to the right of any other, and
    /// takes the first empty slot it reaches.
    pub fn insert(&mut self, value: T)
        requires
            total_order::<T>(),
            old(self).well_formed(),
        ensures
            final(self).root_slot() == Some(
                Box::new(grafted(old(self).root_slot(), Node::leaf(value))),
            ),
            final(self).well_formed(),
            final(self)@.len() == old(self)@.len() + 1,
            exists|k: int|
                enters_at(old(self)@, value, k) && final(self)@ == old(self)@.insert(k, value),
    {
        proof {
            let k = lemma_grafted_leaf(self.root, value);
            assert(enters_at(self@, value, k));
        }
        let new_node = Box::new(Node::leaf(value));
        Self::push_node(new_node, &mut self.root);
    }

    /// Hangs `new_node` below `curr_node` at the place its value belongs:
    /// into the slot itself where that is empty, else further down, to the
    /// left of a node whose value it does not exceed and to the right of any
    /// other.
    pub fn push_node(new_node: Box<Node<T>>, curr_node: &mut Option<Box<Node<T>>>)
        requires
            total_order::<T>(),
        ensures
            *final(curr_node) == Some(Box::new(grafted(*old(curr_node), *new_node))),
        decreases *old(curr_node),
    {
        proof {
            lemma_comparisons_follow_spec::<T>();
        }
        if let Some(node) = curr_node {
            match new_node.value.cmp(&node.value) {
                Ordering::Less | Ordering::Equal => {
                    Self::push_node(new_node, &mut node.left);
                },
                Ordering::Greater => {
                    Self::push_node(new_node, &mut node.right);
                },
            }
        } else {
            *curr_node = Some(new_node);
        }
    }

    /// Searches the tree for `value` and returns the topmost node whose value
    /// holds the same place in the order, with all that hangs below it.
    /// Nothing is found in an empty tree, nor where no value of the tree
    /// holds that place.
    pub fn find(&self, value: T) -> (found: Option<&Node<T>>)
        requires
            total_order::<T>(),
            self.well_formed(),
        ensures
            found == lookup_in(&self.root_slot(), value),
            found matches Some(node) ==> same(value, node.value) && node.is_search_tree(),
            found is Some <==> occurs(self@, value),
    {
        match &self.root {
            Some(node) => node.find(value),
            None => None,
        }
    }
}

} // verus!

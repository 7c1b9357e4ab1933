//! The owned recursive unit of a tree: one value and two optional children.

use crate::order::{
    all_above, all_at_most, enters_at, lemma_comparisons_follow_spec, lemma_less_eq_transitive,
    lemma_mirror, less, less_eq, occurs, same, sorted, total_order,
};
use crate::walk::{accepts, passed, walk_ends, ControlSignal};
use std::cmp::Ordering;
use vstd::prelude::*;

verus! {

/// One value with the subtrees that hang below it. A node owns its children;
/// no node is reachable from two places.
#[derive(Hash, Debug, Eq, Ord, PartialEq, PartialOrd)]
pub struct Node<T> {
    pub value: T,
    pub left: Option<Box<Node<T>>>,
    pub right: Option<Box<Node<T>>>,
}

/// The values below a child slot, left to right; nothing for an empty slot.
pub open spec fn in_order_of<T>(slot: Option<Box<Node<T>>>) -> Seq<T>
    decreases slot,
{
    match slot {
        None => Seq::empty(),
        Some(node) => node.in_order(),
    }
}

/// The search-tree property of whatever hangs in a slot; an empty slot has it.
pub open spec fn is_search_tree_of<T: Ord>(slot: Option<Box<Node<T>>>) -> bool
    decreases slot,
{
    match slot {
        None => true,
        Some(node) => node.is_search_tree(),
    }
}

/// The tree that results when `new_node` is hung into `slot`: it takes the
/// slot itself where that is empty; else it goes down to the left of a node
/// whose value it does not exceed, and to the right of any other.
pub open spec fn grafted<T: Ord>(slot: Option<Box<Node<T>>>, new_node: Node<T>) -> Node<T>
    decreases slot,
{
    match slot {
        None => new_node,
        Some(node) => if less_eq(new_node.value, node.value) {
            Node {
                value: node.value,
                left: Some(Box::new(grafted(node.left, new_node))),
                right: node.right,
            }
        } else {
            Node {
                value: node.value,
                left: node.left,
                right: Some(Box::new(grafted(node.right, new_node))),
            }
        },
    }
}

/// The subtree that a search for `value` below `slot` ends at, if any.
pub open spec fn lookup_in<T: Ord>(slot: &Option<Box<Node<T>>>, value: T) -> Option<&Node<T>>
    decreases slot,
{
    match slot {
        None => None,
        Some(node) => node.lookup(value),
    }
}

impl<T> Node<T> {
    /// The values of this subtree as an in-order walk meets them: the left
    /// subtree, then this node's value, then the right subtree.
    pub open spec fn in_order(self) -> Seq<T>
        decreases self,
    {
        in_order_of(self.left) + seq![self.value] + in_order_of(self.right)
    }

    /// What `leaf` returns, for use in specifications.
    pub open spec fn spec_leaf(value: T) -> Self {
        Node { value, left: None, right: None }
    }

    /// A node with no children.
    #[verifier::when_used_as_spec(spec_leaf)]
    pub fn leaf(value: T) -> (node: Self)
        ensures
            node == Self::spec_leaf(value),
            node@ == seq![value],
    {
        Node { value, left: None, right: None }
    }

    /// Walks the subtree in order and shows each value to `visitor` until it
    /// answers `Stop`; that answer is handed back at once, and no later value
    /// is shown. Where the visitor never stops, every value is shown and the
    /// result is `Continue`.
    pub fn traverse<R, F: Fn(&T) -> ControlSignal<R>>(&self, visitor: &F) -> (signal: ControlSignal<
        R,
    >)
        requires
            accepts(*visitor, self@),
        ensures
            exists|n: int| walk_ends(*visitor, self@, n, signal),
        decreases self,
    {
        // The walk of this subtree is the walk of its left side, then its own
        // value at index `mid`, then the walk of its right side.
        let ghost below = in_order_of(self.left);
        let ghost above = in_order_of(self.right);
        let ghost mid: int = below.len() as int;
        assert forall|i: int| 0 <= i < below.len() implies below[i] == self@[i] by {}
        assert(self@[mid] == self.value);
        assert forall|i: int| 0 <= i < above.len() implies above[i] == self@[mid + 1 + i] by {}
        if let Some(left) = &self.left {
            let signal = left.traverse(visitor);
            if signal.is_stop() {
                proof {
                    let n = choose|n: int| walk_ends(*visitor, below, n, signal);
                    assert(walk_ends(*visitor, self@, n, signal));
                }
                return signal;
            }
        }
        let signal = visitor(&self.value);
        if signal.is_stop() {
            assert(walk_ends(*visitor, self@, mid + 1, signal));
            return signal;
        }
        if let Some(right) = &self.right {
            let signal = right.traverse(visitor);
            proof {
                let n = choose|n: int| walk_ends(*visitor, above, n, signal);
                assert(walk_ends(*visitor, self@, mid + 1 + n, signal));
            }
            return signal;
        }
        assert(walk_ends(*visitor, self@, mid + 1 + above.len(), signal));
        signal
    }
}

/// `copy` has the shape of `source`, and holds at each place a clone of the
/// value that `source` holds there.
pub open spec fn is_copy_of<T: Clone>(
    copy: Option<Box<Node<T>>>,
    source: Option<Box<Node<T>>>,
) -> bool
    decreases source,
{
    match (source, copy) {
        (None, None) => true,
        (Some(from), Some(to)) => {
            &&& cloned(from.value, to.value)
            &&& is_copy_of(to.left, from.left)
            &&& is_copy_of(to.right, from.right)
        },
        _ => false,
    }
}

impl<T: Clone> Clone for Node<T> {
    /// A tree of the same shape that holds a clone of each value.
    fn clone(&self) -> (copy: Self)
        ensures
            is_copy_of(Some(Box::new(copy)), Some(Box::new(*self))),
        decreases self,
    {
        let value = self.value.clone();
        let left = match &self.left {
            Some(node) => Some(Box::new((&**node).clone())),
            None => None,
        };
        let right = match &self.right {
            Some(node) => Some(Box::new((&**node).clone())),
            None => None,
        };
        assert(is_copy_of(left, self.left));
        assert(is_copy_of(right, self.right));
        Node { value, left, right }
    }
}

impl<T: Default> Default for Node<T> {
    /// A leaf that holds the default value of `T`.
    fn default() -> (node: Self)
        ensures
            call_ensures(T::default, (), node.value),
            node == Node::leaf(node.value),
    {
        Node::leaf(T::default())
    }
}

impl<T> View for Node<T> {
    type V = Seq<T>;

    open spec fn view(&self) -> Seq<T> {
        self.in_order()
    }
}

impl<T: Ord> Node<T> {
    /// The search-tree property: every value of the left subtree comes before
    /// this node's value or holds its place, every value of the right subtree
    /// comes strictly after it, and both subtrees have the property too.
    pub open spec fn is_search_tree(self) -> bool
        decreases self,
    {
        &&& all_at_most(in_order_of(self.left), self.value)
        &&& all_above(in_order_of(self.right), self.value)
        &&& is_search_tree_of(self.left)
        &&& is_search_tree_of(self.right)
    }

    /// The subtree that a search for `value` ends at: this node where its
    /// value holds the same place as `value`; else whatever the search finds
    /// on the side that `value` belongs to.
    pub open spec fn lookup(&self, value: T) -> Option<&Node<T>>
        decreases self,
    {
        if same(value, self.value) {
            Some(self)
        } else if less(value, self.value) {
            lookup_in(&self.left, value)
        } else {
            lookup_in(&self.right, value)
        }
    }

    /// Searches this subtree for `value` and returns the topmost node whose
    /// value holds the same place in the order, with all that hangs below it.
    pub fn find(&self, value: T) -> (found: Option<&Node<T>>)
        requires
            total_order::<T>(),
        ensures
            found == self.lookup(value),
            found matches Some(node) ==> same(value, node.value),
            self.is_search_tree() ==> (found is Some <==> occurs(self@, value)),
            self.is_search_tree() ==> (found matches Some(node) ==> node.is_search_tree()),
    {
        proof {
            lemma_lookup_same(*self, value);
            if self.is_search_tree() {
                lemma_lookup_occurs(*self, value);
                lemma_lookup_in_search_tree(*self, value);
            }
        }
        Self::find_node(Some(self), value)
    }

    /// One step of the search: compares `value` with the node at hand and
    /// goes on to the left or to the right of it.
    pub fn find_node<'a>(node: Option<&'a Node<T>>, value: T) -> (found: Option<&'a Node<T>>)
        requires
            total_order::<T>(),
        ensures
            found == (match node {
                Some(node) => node.lookup(value),
                None => None,
            }),
        decreases node,
    {
        proof {
            lemma_comparisons_follow_spec::<T>();
        }
        if let Some(node) = node {
            return match value.cmp(&node.value) {
                Ordering::Less => Self::find_node(child(&node.left), value),
                Ordering::Equal => Some(node),
                Ordering::Greater => Self::find_node(child(&node.right), value),
            };
        }
        None
    }
}

/// The node that hangs in a child slot, borrowed.
pub fn child<T>(slot: &Option<Box<Node<T>>>) -> (node: Option<&Node<T>>)
    ensures
        node == (match slot {
            Some(boxed) => Some(&**boxed),
            None => None,
        }),
{
    match slot {
        Some(boxed) => Some(&**boxed),
        None => None,
    }
}

/// The in-order walk of a search tree meets its values in non-decreasing
/// order.
pub proof fn lemma_search_tree_sorted<T: Ord>(slot: Option<Box<Node<T>>>)
    requires
        total_order::<T>(),
        is_search_tree_of(slot),
    ensures
        sorted(in_order_of(slot)),
    decreases slot,
{
    if let Some(node) = slot {
        let all = node.in_order();
        let mid = in_order_of(node.left).len() as int;
        lemma_search_tree_sorted(node.left);
        lemma_search_tree_sorted(node.right);
        assert forall|i: int, j: int| 0 <= i < j < all.len() implies less_eq(all[i], all[j]) by {
            // Two values of one subtree are in order by induction, and the
            // node's own value is in order with either side by the
            // search-tree property. Across the node it stands between them.
            if i < mid < j {
                lemma_less_eq_transitive(all[i], node.value, all[j]);
            }
        }
    }
}

/// Hanging a leaf into a search tree leaves a search tree, whose in-order
/// walk is the old one with the leaf's value put in at the index `k` that
/// is returned: behind the values that come strictly before it, in front of
/// those that hold its place or come after it.
pub proof fn lemma_grafted_leaf<T: Ord>(slot: Option<Box<Node<T>>>, value: T) -> (k: int)
    requires
        total_order::<T>(),
        is_search_tree_of(slot),
    ensures
        grafted(slot, Node::leaf(value)).is_search_tree(),
        enters_at(in_order_of(slot), value, k),
        grafted(slot, Node::leaf(value))@ == in_order_of(slot).insert(k, value),
    decreases slot,
{
    match slot {
        None => 0,
        Some(node) => {
            let below = in_order_of(node.left);
            let above = in_order_of(node.right);
            let all = node.in_order();
            let mid = below.len() as int;
            let pivot = node.value;
            lemma_mirror(value, pivot);
            if less_eq(value, pivot) {
                // The leaf goes to the left: what stands behind the node
                // comes after the node's value, and so after the leaf's.
                let k = lemma_grafted_leaf(node.left, value);
                assert(all_at_most(below.insert(k, value), pivot));
                assert forall|i: int| k <= i < all.len() implies less_eq(value, all[i]) by {
                    if i > mid {
                        lemma_less_eq_transitive(value, pivot, all[i]);
                    }
                }
                k
            } else {
                // The leaf goes to the right: what stands in front of the
                // node does not exceed the node's value, which comes before
                // the leaf's.
                let k = lemma_grafted_leaf(node.right, value);
                assert(all_above(above.insert(k, value), pivot));
                assert forall|i: int| 0 <= i < mid + 1 + k implies less(all[i], value) by {
                    if i < mid {
                        lemma_less_eq_transitive(all[i], pivot, value);
                    }
                }
                mid + 1 + k
            }
        },
    }
}

/// The node that a search ends at holds the place of the value searched for.
pub proof fn lemma_lookup_same<T: Ord>(node: Node<T>, value: T)
    ensures
        node.lookup(value) matches Some(found) ==> same(value, found.value),
    decreases node,
{
    if !same(value, node.value) {
        if less(value, node.value) {
            if let Some(left) = node.left {
                lemma_lookup_same(*left, value);
            }
        } else {
            if let Some(right) = node.right {
                lemma_lookup_same(*right, value);
            }
        }
    }
}

/// What a search of a search tree ends at is a search tree too.
pub proof fn lemma_lookup_in_search_tree<T: Ord>(node: Node<T>, value: T)
    requires
        node.is_search_tree(),
    ensures
        node.lookup(value) matches Some(found) ==> found.is_search_tree(),
    decreases node,
{
    if !same(value, node.value) {
        if less(value, node.value) {
            if let Some(left) = node.left {
                lemma_lookup_in_search_tree(*left, value);
            }
        } else {
            if let Some(right) = node.right {
                lemma_lookup_in_search_tree(*right, value);
            }
        }
    }
}

/// In a search tree a search ends at a node exactly if some value of the
/// tree holds the place of the value searched for.
pub proof fn lemma_lookup_occurs<T: Ord>(node: Node<T>, value: T)
    requires
        total_order::<T>(),
        node.is_search_tree(),
    ensures
        node.lookup(value) is Some <==> occurs(node@, value),
    decreases node,
{
    let below = in_order_of(node.left);
    let above = in_order_of(node.right);
    let all = node.in_order();
    let mid = below.len() as int;
    let pivot = node.value;
    assert(all[mid] == pivot);
    assert forall|i: int| 0 <= i < below.len() implies below[i] == all[i] by {}
    assert forall|i: int| 0 <= i < above.len() implies above[i] == all[mid + 1 + i] by {}
    lemma_mirror(value, pivot);
    if same(value, pivot) {
        // The search ends here, and the node's own value is the witness.
    } else if less(value, pivot) {
        // The search goes on to the left. Nothing to the right holds the
        // place of `value`, since all of it comes after the node's value.
        if let Some(left) = node.left {
            lemma_lookup_occurs(*left, value);
        }
        if occurs(all, value) {
            let i = choose|i: int| 0 <= i < all.len() && same(value, #[trigger] all[i]);
            if i > mid {
                lemma_less_eq_transitive(value, pivot, all[i]);
            }
        }
    } else {
        // The search goes on to the right. Nothing to the left holds the
        // place of `value`, since none of it exceeds the node's value.
        if let Some(right) = node.right {
            lemma_lookup_occurs(*right, value);
        }
        if occurs(all, value) {
            let i = choose|i: int| 0 <= i < all.len() && same(value, #[trigger] all[i]);
            if i < mid {
                lemma_less_eq_transitive(all[i], pivot, value);
                lemma_mirror(value, all[i]);
            }
        }
    }
}

} // verus!

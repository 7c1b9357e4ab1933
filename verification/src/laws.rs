//! What holds of every tree, whatever was put into it and in whatever
//! order: the laws that callers may rely on, each proved from the
//! contracts and definitions of the other modules.

use crate::node::{
    grafted, in_order_of, is_copy_of, is_search_tree_of, lemma_grafted_leaf, lemma_lookup_occurs,
    lemma_search_tree_sorted, lookup_in, Node,
};
use crate::order::{
    enters_at, lemma_mirror, lemma_same_reflexive, less, occurs, same, sorted, total_order,
};
use crate::tree::Bst;
use crate::walk::{passed, walk_ends, ControlSignal};
use vstd::prelude::*;

verus! {

/// What a tree holds before anything is inserted: the seed value where it
/// was made from one, nothing where it was made empty.
pub open spec fn seeded<T>(seed: Option<T>) -> Seq<T> {
    match seed {
        Some(value) => seq![value],
        None => Seq::empty(),
    }
}

/// The root slot of the tree that is made empty or from a seed value, and
/// then receives `values` by one insertion each, first to last.
pub open spec fn built<T: Ord>(seed: Option<T>, values: Seq<T>) -> Option<Box<Node<T>>>
    decreases values.len(),
{
    if values.len() == 0 {
        match seed {
            Some(value) => Some(Box::new(Node::leaf(value))),
            None => None,
        }
    } else {
        Some(Box::new(grafted(built(seed, values.drop_last()), Node::leaf(values.last()))))
    }
}

/// One more insertion takes `built` one step on: the tree built from
/// `values` and then `value` is the tree built from `values` with a leaf
/// for `value` hung into it.
pub proof fn lemma_built_grows<T: Ord>(seed: Option<T>, values: Seq<T>, value: T)
    ensures
        built(seed, values.push(value)) == Some(
            Box::new(grafted(built(seed, values), Node::leaf(value))),
        ),
{
    assert(values.push(value).drop_last() =~= values);
}

/// The in-order walk of a well-formed tree meets its values in
/// non-decreasing order.
pub proof fn lemma_tree_is_sorted<T: Ord>(tree: Bst<T>)
    requires
        total_order::<T>(),
        tree.well_formed(),
    ensures
        sorted(tree@),
{
    lemma_search_tree_sorted(tree.root_slot());
}

/// Whatever values are inserted and in whatever order, the result is a
/// search tree, and an in-order walk of it meets the values in
/// non-decreasing order.
pub proof fn lemma_built_is_sorted<T: Ord>(seed: Option<T>, values: Seq<T>)
    requires
        total_order::<T>(),
    ensures
        is_search_tree_of(built(seed, values)),
        sorted(in_order_of(built(seed, values))),
    decreases values.len(),
{
    if values.len() == 0 {
        if let Some(value) = seed {
            assert(Node::leaf(value).is_search_tree());
        }
    } else {
        lemma_built_is_sorted(seed, values.drop_last());
        lemma_grafted_leaf(built(seed, values.drop_last()), values.last());
    }
    lemma_search_tree_sorted(built(seed, values));
}

/// An insertion says where its value enters the walk of the tree, and there
/// is one such index only: two indices that both meet `enters_at` are the
/// same.
pub proof fn lemma_enters_at_one_index<T: Ord>(s: Seq<T>, value: T, k1: int, k2: int)
    requires
        total_order::<T>(),
        enters_at(s, value, k1),
        enters_at(s, value, k2),
    ensures
        k1 == k2,
{
    if k1 < k2 {
        lemma_mirror(s[k1], value);
    } else if k2 < k1 {
        lemma_mirror(s[k2], value);
    }
}

/// Putting one value into a sequence, at whatever index, adds that value
/// once to what the sequence holds.
pub proof fn lemma_insert_adds_one<T>(s: Seq<T>, k: int, value: T)
    requires
        0 <= k <= s.len(),
    ensures
        s.insert(k, value).to_multiset() == s.to_multiset().insert(value),
{
    broadcast use vstd::seq_lib::group_to_multiset_ensures;

    let grown = s.insert(k, value);
    assert(grown.remove(k) =~= s);
    assert(grown[k] == value);
    assert(grown.to_multiset() =~= s.to_multiset().insert(value));
}

/// A tree holds one value for the seed it was made from, if any, and one
/// for each insertion; a value that was inserted several times is held as
/// often.
pub proof fn lemma_built_holds_all<T: Ord>(seed: Option<T>, values: Seq<T>)
    requires
        total_order::<T>(),
    ensures
        in_order_of(built(seed, values)).len() == seeded(seed).len() + values.len(),
        in_order_of(built(seed, values)).to_multiset() == (seeded(seed) + values).to_multiset(),
    decreases values.len(),
{
    broadcast use vstd::seq_lib::group_to_multiset_ensures;

    if values.len() == 0 {
        if let Some(value) = seed {
            assert(Node::leaf(value).in_order() =~= seq![value]);
        }
        assert(seeded(seed) + values =~= seeded(seed));
    } else {
        let before = values.drop_last();
        let last = values.last();
        lemma_built_holds_all(seed, before);
        lemma_built_is_sorted(seed, before);
        let k = lemma_grafted_leaf(built(seed, before), last);
        let walk = in_order_of(built(seed, before));
        assert(in_order_of(built(seed, values)) == walk.insert(k, last));
        lemma_insert_adds_one(walk, k, last);
        assert(seeded(seed) + values =~= (seeded(seed) + before).push(last));
    }
}

/// A walk with a visitor that never stops shows it every value and ends
/// with `Continue`.
pub proof fn lemma_walk_without_stop_sees_all<T, R, F: Fn(&T) -> ControlSignal<R>>(
    visitor: F,
    s: Seq<T>,
    n: int,
    signal: ControlSignal<R>,
)
    requires
        walk_ends(visitor, s, n, signal),
        forall|i: int, answer: ControlSignal<R>|
            0 <= i < s.len() && call_ensures(visitor, (&#[trigger] s[i],), answer)
                ==> answer is Continue,
    ensures
        signal is Continue,
        n == s.len(),
{
}

/// A visitor that never stops is shown one value for the seed that the tree
/// was made from, if any, and one for each insertion.
pub proof fn lemma_walk_shows_one_value_per_insertion<T: Ord, R, F: Fn(&T) -> ControlSignal<R>>(
    visitor: F,
    seed: Option<T>,
    values: Seq<T>,
    n: int,
    signal: ControlSignal<R>,
)
    requires
        total_order::<T>(),
        walk_ends(visitor, in_order_of(built(seed, values)), n, signal),
        forall|value: T, answer: ControlSignal<R>|
            call_ensures(visitor, (&value,), answer) ==> answer is Continue,
    ensures
        n == seeded(seed).len() + values.len(),
{
    lemma_built_holds_all(seed, values);
    lemma_walk_without_stop_sees_all(visitor, in_order_of(built(seed, values)), n, signal);
}

/// A search of a tree for `value` ends at a node if some value that the
/// tree was made from or received holds the place of `value`, and at nothing
/// if none does. So it ends at a node for every value that went in.
pub proof fn lemma_built_finds_what_went_in<T: Ord>(seed: Option<T>, values: Seq<T>, value: T)
    requires
        total_order::<T>(),
    ensures
        lookup_in(&built(seed, values), value) is Some <==> occurs(seeded(seed) + values, value),
        (seeded(seed) + values).contains(value) ==> lookup_in(&built(seed, values), value) is Some,
{
    let walk = in_order_of(built(seed, values));
    let given = seeded(seed) + values;
    lemma_built_is_sorted(seed, values);
    lemma_built_holds_all(seed, values);
    walk.to_multiset_ensures();
    given.to_multiset_ensures();
    if let Some(root) = built(seed, values) {
        lemma_lookup_occurs(*root, value);
    }
    // The tree holds what went in, so a witness on one side is one on the
    // other.
    if occurs(walk, value) {
        let i = choose|i: int| 0 <= i < walk.len() && same(value, #[trigger] walk[i]);
        assert(given.to_multiset().count(walk[i]) > 0);
        assert(given.contains(walk[i]));
    }
    if occurs(given, value) {
        let j = choose|j: int| 0 <= j < given.len() && same(value, #[trigger] given[j]);
        assert(walk.to_multiset().count(given[j]) > 0);
        assert(walk.contains(given[j]));
    }
    if given.contains(value) {
        let j = choose|j: int| 0 <= j < given.len() && given[j] == value;
        lemma_same_reflexive(value);
        assert(same(value, given[j]));
    }
}

/// Two searches of one tree for one value end at the same node, or both at
/// nothing.
pub proof fn lemma_find_again_finds_the_same<T: Ord>(
    tree: Bst<T>,
    value: T,
    first: Option<&Node<T>>,
    second: Option<&Node<T>>,
)
    requires
        total_order::<T>(),
        tree.well_formed(),
        call_ensures(Bst::<T>::find, (&tree, value), first),
        call_ensures(Bst::<T>::find, (&tree, value), second),
    ensures
        first == second,
{
}

/// A walk with a visitor that stops at the value `target`, and at no other,
/// ends at the first place where `target` stands. It has then shown the
/// visitor the values up to that place and none behind it. Where `target`
/// stands nowhere the walk shows every value and ends with `Continue`.
pub proof fn lemma_walk_stops_at_target<T, R, F: Fn(&T) -> ControlSignal<R>>(
    visitor: F,
    s: Seq<T>,
    target: T,
    n: int,
    signal: ControlSignal<R>,
)
    requires
        walk_ends(visitor, s, n, signal),
        forall|i: int, answer: ControlSignal<R>|
            0 <= i < s.len() && call_ensures(visitor, (&#[trigger] s[i],), answer)
                ==> (answer is Stop <==> s[i] == target),
    ensures
        signal is Stop <==> s.contains(target),
        signal is Stop ==> s[n - 1] == target && s.index_of_first(target) == Some(n - 1),
        signal is Continue ==> n == s.len(),
{
    s.index_of_first_ensures(target);
    if s.contains(target) {
        // The visitor cannot have answered `Continue` at the first place
        // where `target` stands, so the walk did not pass it.
        let first = s.index_of_first(target)->0;
        assert(!passed(visitor, s, first + 1));
    }
}

/// A value that holds the place of a node's own value goes to the left of
/// that node, and leaves its right side as it was.
pub proof fn lemma_equal_value_goes_left<T: Ord>(node: Node<T>, value: T)
    requires
        total_order::<T>(),
        same(value, node.value),
    ensures
        grafted(Some(Box::new(node)), Node::leaf(value)) == (Node {
            value: node.value,
            left: Some(Box::new(grafted(node.left, Node::leaf(value)))),
            right: node.right,
        }),
{
}

/// The chain that holds `values` from the top down: each node has nothing to
/// its left and the rest of the chain to its right.
pub open spec fn right_chain<T>(values: Seq<T>) -> Option<Box<Node<T>>>
    decreases values.len(),
{
    if values.len() == 0 {
        None
    } else {
        Some(
            Box::new(
                Node { value: values.first(), left: None, right: right_chain(values.drop_first()) },
            ),
        )
    }
}

/// A value that comes after all the values of a chain goes to its far end.
pub proof fn lemma_chain_grows_at_its_end<T: Ord>(values: Seq<T>, value: T)
    requires
        total_order::<T>(),
        forall|i: int| 0 <= i < values.len() ==> less(#[trigger] values[i], value),
    ensures
        Some(Box::new(grafted(right_chain(values), Node::leaf(value)))) == right_chain(
            values.push(value),
        ),
    decreases values.len(),
{
    let longer = values.push(value);
    if values.len() == 0 {
        assert(longer.drop_first() =~= values);
    } else {
        let rest = values.drop_first();
        assert(longer.drop_first() =~= rest.push(value));
        assert(longer.first() == values.first());
        assert forall|i: int| 0 <= i < rest.len() implies less(#[trigger] rest[i], value) by {
            assert(rest[i] == values[i + 1]);
        }
        lemma_chain_grows_at_its_end(rest, value);
        lemma_mirror(values.first(), value);
    }
}

/// The tree is not balanced: values that are inserted into an empty tree in
/// strictly ascending order form a chain to the right, one node for each
/// value and each below the one before.
pub proof fn lemma_ascending_values_build_a_chain<T: Ord>(values: Seq<T>)
    requires
        total_order::<T>(),
        forall|i: int, j: int|
            0 <= i < j < values.len() ==> less(#[trigger] values[i], #[trigger] values[j]),
    ensures
        built(None, values) == right_chain(values),
    decreases values.len(),
{
    if values.len() > 0 {
        let before = values.drop_last();
        lemma_ascending_values_build_a_chain(before);
        lemma_chain_grows_at_its_end(before, values.last());
        assert(before.push(values.last()) =~= values);
    }
}

/// Where a clone of a value is always that value, as it is for the
/// integers, a copy of a tree is that tree.
pub proof fn lemma_copy_is_equal<T: Clone>(copy: Option<Box<Node<T>>>, source: Option<Box<Node<T>>>)
    requires
        is_copy_of(copy, source),
        forall|a: T, b: T| cloned(a, b) ==> a == b,
    ensures
        copy == source,
    decreases source,
{
    if let Some(from) = source {
        let to = copy->0;
        lemma_copy_is_equal(to.left, from.left);
        lemma_copy_is_equal(to.right, from.right);
    }
}

} // verus!

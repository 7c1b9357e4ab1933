//! The order that a tree keeps its values in.
//!
//! A tree is keyed by any `T: Ord`. Its contracts speak of that order
//! through the three relations below, and its proofs rest on the lemmas
//! that follow them, which hold of every type whose comparison obeys the
//! laws that `vstd` states for `Ord`.

use std::cmp::Ordering;
use vstd::prelude::*;
use vstd::std_specs::cmp::{OrdSpec, PartialEqSpec, PartialOrdSpec};

verus! {

/// `T`'s three-way comparison behaves as a total order: it is the function
/// that `cmp_spec` names, `partial_cmp` and `==` agree with it, and it is
/// antisymmetric and transitive. For the integer types, and for tuples,
/// options and references of types that have it, `vstd` proves this in its
/// broadcast group `vstd::laws_cmp::group_laws_cmp`.
pub open spec fn total_order<T: Ord>() -> bool {
    vstd::laws_cmp::obeys_cmp::<T>()
}

/// `a` comes strictly before `b`.
pub open spec fn less<T: Ord>(a: T, b: T) -> bool {
    a.cmp_spec(&b) == Ordering::Less
}

/// `a` and `b` hold the same place in the order.
pub open spec fn same<T: Ord>(a: T, b: T) -> bool {
    a.cmp_spec(&b) == Ordering::Equal
}

/// `a` comes before `b` or holds the same place.
pub open spec fn less_eq<T: Ord>(a: T, b: T) -> bool {
    a.cmp_spec(&b) != Ordering::Greater
}

/// Every value of `s` comes before `bound` or holds its place.
pub open spec fn all_at_most<T: Ord>(s: Seq<T>, bound: T) -> bool {
    forall|i: int| 0 <= i < s.len() ==> less_eq(#[trigger] s[i], bound)
}

/// Every value of `s` comes strictly after `bound`.
pub open spec fn all_above<T: Ord>(s: Seq<T>, bound: T) -> bool {
    forall|i: int| 0 <= i < s.len() ==> less(bound, #[trigger] s[i])
}

/// `s` is in non-decreasing order.
pub open spec fn sorted<T: Ord>(s: Seq<T>) -> bool {
    forall|i: int, j: int| 0 <= i < j < s.len() ==> less_eq(#[trigger] s[i], #[trigger] s[j])
}

/// Some value of `s` holds the same place as `value`.
pub open spec fn occurs<T: Ord>(s: Seq<T>, value: T) -> bool {
    exists|i: int| 0 <= i < s.len() && same(value, #[trigger] s[i])
}

/// `k` is the index at which `value` enters `s`: behind every value that
/// comes strictly before it, and in front of all the others, those that hold
/// its own place included.
pub open spec fn enters_at<T: Ord>(s: Seq<T>, value: T, k: int) -> bool {
    &&& 0 <= k <= s.len()
    &&& forall|i: int| 0 <= i < k ==> less(#[trigger] s[i], value)
    &&& forall|i: int| k <= i < s.len() ==> less_eq(value, #[trigger] s[i])
}

/// Under a total order the executable comparisons return what their
/// specifications name.
pub proof fn lemma_comparisons_follow_spec<T: Ord>()
    requires
        total_order::<T>(),
    ensures
        T::obeys_cmp_spec(),
        T::obeys_partial_cmp_spec(),
        T::obeys_eq_spec(),
{
    reveal(vstd::laws_cmp::obeys_cmp_ord);
    reveal(vstd::laws_cmp::obeys_cmp_partial_ord);
}

/// Swapping the arguments of a comparison mirrors its result.
pub proof fn lemma_mirror<T: Ord>(a: T, b: T)
    requires
        total_order::<T>(),
    ensures
        less(a, b) <==> !less_eq(b, a),
        same(a, b) <==> same(b, a),
        less_eq(a, b) <==> !less(b, a),
{
    reveal(vstd::laws_cmp::obeys_cmp_ord);
    reveal(vstd::laws_cmp::obeys_cmp_partial_ord);
    reveal(vstd::laws_cmp::obeys_partial_cmp_spec_properties);
    reveal(vstd::laws_eq::obeys_eq_spec_properties);
}

/// Every value holds the same place as itself.
pub proof fn lemma_same_reflexive<T: Ord>(a: T)
    requires
        total_order::<T>(),
    ensures
        same(a, a),
        less_eq(a, a),
{
    lemma_mirror(a, a);
}

/// `same` is transitive.
pub proof fn lemma_same_transitive<T: Ord>(a: T, b: T, c: T)
    requires
        total_order::<T>(),
        same(a, b),
        same(b, c),
    ensures
        same(a, c),
{
    reveal(vstd::laws_cmp::obeys_cmp_ord);
    reveal(vstd::laws_cmp::obeys_cmp_partial_ord);
    reveal(vstd::laws_cmp::obeys_partial_cmp_spec_properties);
    reveal(vstd::laws_eq::obeys_eq_spec_properties);
}

/// `less` is transitive.
pub proof fn lemma_less_transitive<T: Ord>(a: T, b: T, c: T)
    requires
        total_order::<T>(),
        less(a, b),
        less(b, c),
    ensures
        less(a, c),
{
    reveal(vstd::laws_cmp::obeys_cmp_ord);
    reveal(vstd::laws_cmp::obeys_cmp_partial_ord);
    reveal(vstd::laws_cmp::obeys_partial_cmp_spec_properties);
}

/// A value that holds the same place as one that comes before `c` comes
/// before `c` too.
pub proof fn lemma_same_then_less<T: Ord>(a: T, b: T, c: T)
    requires
        total_order::<T>(),
        same(a, b),
        less(b, c),
    ensures
        less(a, c),
{
    lemma_mirror(a, b);
    lemma_mirror(a, c);
    lemma_mirror(b, c);
    if same(a, c) {
        lemma_same_transitive(b, a, c);
    } else if !less(a, c) {
        // then c < a, and with b < c also b < a, against same(a, b)
        lemma_less_transitive(b, c, a);
    }
}

/// A value that comes before one holding the same place as `c` comes
/// before `c` too.
pub proof fn lemma_less_then_same<T: Ord>(a: T, b: T, c: T)
    requires
        total_order::<T>(),
        less(a, b),
        same(b, c),
    ensures
        less(a, c),
{
    lemma_mirror(a, b);
    lemma_mirror(a, c);
    lemma_mirror(b, c);
    if same(a, c) {
        lemma_same_transitive(a, c, b);
    } else if !less(a, c) {
        lemma_less_transitive(c, a, b);
    }
}

/// `less_eq` is transitive, and the result is strict as soon as one of the
/// two steps is.
pub proof fn lemma_less_eq_transitive<T: Ord>(a: T, b: T, c: T)
    requires
        total_order::<T>(),
        less_eq(a, b),
        less_eq(b, c),
    ensures
        less_eq(a, c),
        less(a, b) || less(b, c) ==> less(a, c),
{
    if less(a, b) {
        if less(b, c) {
            lemma_less_transitive(a, b, c);
        } else {
            lemma_less_then_same(a, b, c);
        }
    } else {
        if less(b, c) {
            lemma_same_then_less(a, b, c);
        } else {
            lemma_same_transitive(a, b, c);
        }
    }
}

} // verus!

//! The signal a visitor hands back to a traversal, and what a traversal
//! promises about the values it shows to the visitor.

use vstd::prelude::*;

verus! {

/// What a visitor tells the traversal after seeing one value.
#[derive(Debug, PartialEq, Eq)]
pub enum ControlSignal<R> {
    /// Go on with the next value.
    Continue,
    /// Stop at once and hand `R` back to the caller of the traversal.
    Stop(R),
}

impl<R> ControlSignal<R> {
    /// True exactly for `Stop`.
    pub fn is_stop(&self) -> (b: bool)
        ensures
            b == (*self is Stop),
    {
        match self {
            ControlSignal::Continue => false,
            ControlSignal::Stop(_) => true,
        }
    }
}

impl<R> Default for ControlSignal<R> {
    /// A visitor goes on unless it says otherwise.
    fn default() -> (signal: Self)
        ensures
            signal is Continue,
    {
        ControlSignal::Continue
    }
}

/// `visitor` may be called on every value of `s`.
pub open spec fn accepts<T, R, F: Fn(&T) -> ControlSignal<R>>(visitor: F, s: Seq<T>) -> bool {
    forall|i: int| 0 <= i < s.len() ==> call_requires(visitor, (&#[trigger] s[i],))
}

/// `visitor` was shown the first `n` values of `s`, one after the other, and
/// answered `Continue` to each.
pub open spec fn passed<T, R, F: Fn(&T) -> ControlSignal<R>>(
    visitor: F,
    s: Seq<T>,
    n: int,
) -> bool {
    forall|i: int|
        0 <= i < n ==> call_ensures(visitor, (&#[trigger] s[i],), ControlSignal::<R>::Continue)
}

/// A walk over `s` that showed `visitor` exactly the first `n` values and
/// ended with `signal`. It ends with `Continue` only behind the last value,
/// every answer having been `Continue`; it ends with `Stop` at the `n`-th
/// value, which is the first that the visitor answered with a `Stop`, and
/// hands on that very answer.
pub open spec fn walk_ends<T, R, F: Fn(&T) -> ControlSignal<R>>(
    visitor: F,
    s: Seq<T>,
    n: int,
    signal: ControlSignal<R>,
) -> bool {
    match signal {
        ControlSignal::Continue => n == s.len() && passed(visitor, s, n),
        ControlSignal::Stop(_) => {
            &&& 0 < n <= s.len()
            &&& passed(visitor, s, n - 1)
            &&& call_ensures(visitor, (&s[n - 1],), signal)
        },
    }
}

} // verus!

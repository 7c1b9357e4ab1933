//! Taking a string's length, and a trait that is only partly usable
//! through a trait object.

use vstd::prelude::*;
use vstd::string::StringSliceAdditionalSpecFns;

verus! {

/// The length of `s` in bytes, as its UTF-8 encoding has them.
pub fn strlen(s: &str) -> (len: usize)
    ensures
        len == s.spec_bytes().len() as usize,
{
    s.len()
}

/// A trait with one method that a trait object offers and one that it
/// cannot offer, since it returns the implementing type's own `Item`.
pub trait Hei {
    type Item;

    fn hei(&self);

    fn weird(&self) -> Self::Item where Self: Sized;
}

} // verus!

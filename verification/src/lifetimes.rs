//! Functions whose signatures show how lifetimes tie results to arguments.

use vstd::prelude::*;
use vstd::string::StrSliceExecFns;

verus! {

/// Cuts the first token off `x`: returns what stands before the first
/// `delimiter` and leaves in `x` what stands behind it. Where `x` holds no
/// `delimiter`, all of it is returned and `x` is left empty.
pub fn str_tok<'a, 'b>(x: &'a mut &'b str, delimiter: char) -> (token: &'b str)
    ensures
        match old(x)@.index_of_first(delimiter) {
            Some(i) => token@ == old(x)@.subrange(0, i) && final(x)@ == old(x)@.subrange(
                i + 1,
                old(x)@.len() as int,
            ),
            None => token@ == old(x)@ && final(x)@ == Seq::<char>::empty(),
        },
{
    let whole: &'b str = *x;
    let len = whole.unicode_len();
    let mut i: usize = 0;
    for c in it: whole.chars()
        invariant
            whole@ == old(x)@,
            it.seq() == whole@,
            len == whole@.len(),
            i == it.index(),
            forall|j: int| 0 <= j < i ==> whole@[j] != delimiter,
    {
        if c == delimiter {
            let prefix = whole.substring_char(0, i);
            let suffix = whole.substring_char(i + 1, len);
            *x = suffix;
            proof {
                // No delimiter stands before `i`, so this one is the first.
                whole@.index_of_first_ensures(delimiter);
                assert(whole@.index_of_first(delimiter) == Some(i as int));
            }
            return prefix;
        }
        i += 1;
    }
    *x = "";
    proof {
        reveal_strlit("");
        whole@.index_of_first_ensures(delimiter);
    }
    whole
}

/// Hands its argument back.
pub fn ouch_2(_x: &String) -> (same: &String)
    ensures
        same == _x,
{
    _x
}

/// The strings `"x"` and `"y"`, whatever the argument.
pub fn ouch_2_1(_x: &str) -> (pair: (&str, &str))
    ensures
        pair.0@ == "x"@,
        pair.1@ == "y"@,
{
    ("x", "y")
}

/// A value with nothing in it, to borrow from.
#[derive(Debug)]
pub struct Ouch;

impl Ouch {
    /// A shared borrow of the value, which holds the exclusive borrow it was
    /// made from for as long as it lives.
    pub fn mutate_and_share(&mut self) -> (shared: &Self)
        ensures
            *shared == *old(self),
            *final(self) == *old(self),
    {
        &*self
    }

    /// Does nothing.
    pub fn share(&self) {
    }
}

/// The longer of the two strings by its length in bytes, and `y` where
/// neither is longer.
pub fn ouch_4<'a, 'b>(x: &'a str, y: &'b str) -> (longer: &'a str) where 'b: 'a
    ensures
        longer == (if x.len() > y.len() {
            x
        } else {
            y
        }),
{
    if x.len() > y.len() {
        x
    } else {
        y
    }
}

} // verus!

//! Small types that show how an interface guides its callers: a pair with
//! the traits a caller expects, a trait that references implement too, and
//! a rocket whose type says whether it has been launched.

use std::marker::PhantomData;
use vstd::prelude::*;

verus! {

/// Two values of one type.
#[derive(Debug)]
pub struct Pair<T> {
    x: T,
    y: T,
}

impl<T> Pair<T> {
    /// The first of the two values.
    pub closed spec fn first(self) -> T {
        self.x
    }

    /// The second of the two values.
    pub closed spec fn second(self) -> T {
        self.y
    }

    /// The pair of `x` and `y`, in that order.
    pub fn new(x: T, y: T) -> (pair: Self)
        ensures
            pair.first() == x,
            pair.second() == y,
    {
        Self { x, y }
    }
}

impl<T: Clone> Clone for Pair<T> {
    /// The pair of a clone of each value.
    fn clone(&self) -> (copy: Self)
        ensures
            cloned(self.first(), copy.first()),
            cloned(self.second(), copy.second()),
    {
        Pair { x: self.x.clone(), y: self.y.clone() }
    }
}

/// Something that can be asked to do nothing.
pub trait MyTrait {
    fn seila(&self) -> ();
}

impl<T> MyTrait for Pair<T> {
    fn seila(&self) -> () {
        ()
    }
}

/// A reference to a pair can be used wherever the pair can.
impl<T> MyTrait for &Pair<T> {
    fn seila(&self) -> () {
        ()
    }
}

/// Hands its argument back.
pub fn foo<F: MyTrait>(f: F) -> (same: F)
    ensures
        same == f,
{
    f
}

/// The state of a rocket that stands on the ground.
pub struct Grounded;

/// The state of a rocket that has left the ground.
pub struct Launched;

/// A rocket of some colour. Its state is part of its type, so that only a
/// grounded rocket can be launched and only a launched one can accelerate.
pub struct Rocket<State = Grounded> {
    state: PhantomData<State>,
    color: String,
}

impl Rocket {
    /// A grounded rocket of the colour given, red where none is given.
    pub fn new(color: Option<String>) -> (rocket: Self)
        ensures
            rocket.spec_color() == (match color {
                Some(c) => c@,
                None => "Red"@,
            }),
    {
        Rocket { state: PhantomData::<Grounded>, color: color.unwrap_or("Red".to_string()) }
    }
}

impl Rocket<Grounded> {
    /// The same rocket, launched.
    #[must_use]
    pub fn launch(self) -> (launched: Rocket<Launched>)
        ensures
            launched.spec_color() == self.spec_color(),
    {
        Rocket { state: PhantomData::<Launched>, color: self.color }
    }
}

impl Rocket<Launched> {
    /// Leaves the rocket as it is.
    pub fn accelerate(&mut self)
        ensures
            *final(self) == *old(self),
    {
    }
}

impl<State> Rocket<State> {
    /// The rocket's colour as a sequence of characters.
    pub closed spec fn spec_color(self) -> Seq<char> {
        self.color@
    }

    /// The rocket's colour.
    pub fn color(&self) -> (c: &str)
        ensures
            c@ == self.spec_color(),
    {
        self.color.as_str()
    }

    /// Paints the rocket in colour `c`.
    pub fn set_color(&mut self, c: String)
        ensures
            final(self).spec_color() == c@,
    {
        self.color = c;
    }
}

} // verus!

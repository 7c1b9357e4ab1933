//! An ordered, in-memory binary search tree, verified with Verus: insertion
//! that keeps the search-tree property, lookup by value, and an in-order
//! traversal that a visitor can stop.
//!
//! - [`order`] states the total order that a tree keeps its values in.
//! - [`node`] holds the recursive unit of a tree, with lookup and traversal
//!   of a subtree.
//! - [`tree`] holds the container and its insertion.
//! - [`walk`] holds the signal that a visitor answers with, and what a
//!   traversal promises about the values it shows.
//! - [`laws`] proves what holds of every tree, whatever went into it.
//!
//! Three small modules beside the tree show how an interface guides its
//! callers: [`apis`], [`dynamic_dispatch`] and [`lifetimes`].

pub mod apis;
pub mod dynamic_dispatch;
pub mod laws;
pub mod lifetimes;
pub mod node;
pub mod order;
pub mod tree;
pub mod walk;

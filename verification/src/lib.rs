//! A verified list store in the style of Redis lists over a quicklist
//! representation: each list is a doubly-linked chain of nodes, and each node
//! owns one packed block of byte-string elements.
use vstd::prelude::*;

pub mod block;
pub mod chain;
pub mod model;
pub mod engine;

verus! {

/// Failure kinds surfaced by list operations.
///
/// `NotFound` reports that a required entity (list, index, pivot) is absent.
/// `Inconsistent` reports a dangling chain reference; the engine's proven
/// invariants keep it from ever being produced here. `Conflict` and `Backend`
/// belong to a transactional backend: a commit lost to a concurrent writer,
/// or a lower-level storage failure.
#[derive(Clone, Copy, PartialEq, Eq, Structural, Debug)]
pub enum Error {
    NotFound,
    Inconsistent,
    Conflict,
    Backend,
}

} // verus!

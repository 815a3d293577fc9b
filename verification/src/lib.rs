//! Ordered sets of 64-bit integers kept in search trees, with three
//! interchangeable balancing strategies: none ([`bst`]), height balance by
//! rotations ([`avl`]) and random heap priorities ([`treap`]).

pub use crate::play::{play_random_numbers, play_sorted_numbers, sorted_percent};
use crate::shape::non_descending;
use vstd::prelude::*;

pub mod avl;
pub mod bst;
mod chance;
pub mod fixture;
pub mod play;
pub mod shape;
pub mod tester;
pub mod treap;

verus! {

/// What the three engines have in common: a collection of keys that is kept
/// in search-tree order under insertion, lookup and deletion.
///
/// The engines differ in what they do with a key that is already there, and
/// in what they report for a key that is not. `accepts` and `yields` say
/// which keys an engine adds and which it reports.
pub trait Tree {
    /// The keys as an in-order walk of the tree meets them.
    spec fn listing(&self) -> Seq<i64>;

    /// Whether `insert(value)` adds a key to this collection.
    spec fn accepts(&self, value: i64) -> bool;

    /// Whether `remove(value)` reports a key for this collection.
    spec fn yields(&self, value: i64) -> bool;

    /// Adds `value` if the engine accepts it, and says whether it did.
    fn insert(&mut self, value: i64) -> (added: bool)
        ensures
            added == old(self).accepts(value),
            added ==> final(self).listing().to_multiset() == old(
                self,
            ).listing().to_multiset().insert(value),
            !added ==> final(self).listing() == old(self).listing(),
            non_descending(final(self).listing()),
    ;

    /// Takes one `value` out if there is one, and reports as the engine does.
    fn remove(&mut self, value: i64) -> (taken: Option<i64>)
        ensures
            taken == if old(self).yields(value) { Some(value) } else { None::<i64> },
            final(self).listing().to_multiset() == old(self).listing().to_multiset().remove(
                value,
            ),
            non_descending(final(self).listing()),
    ;

    /// Whether `value` is one of the keys.
    fn search(&self, value: i64) -> (found: bool)
        ensures
            found == self.listing().contains(value),
    ;
}

} // verus!

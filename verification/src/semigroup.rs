//! Keys drawn from an abelian semigroup, and the concrete key type used
//! by this tree: a lamport floor together with a closed time range.

use vstd::prelude::*;

verus! {

/// Items that can be combined in an associative way.
///
/// Every implementation gives its `combine` a mathematical meaning through
/// `combine_spec` and proves that meaning associative.
pub trait Semigroup: Sized {
    /// What `combine` computes.
    spec fn combine_spec(self, b: Self) -> Self;

    /// Combine `b` into `self`.
    fn combine(&mut self, b: &Self)
        ensures
            *final(self) == old(self).combine_spec(*b),
    ;

    /// `combine` is associative.
    proof fn lemma_combine_assoc(a: Self, b: Self, c: Self)
        ensures
            a.combine_spec(b).combine_spec(c) == a.combine_spec(b.combine_spec(c)),
    ;
}

/// The key of one event, or the summary of a run of keys: the least
/// lamport timestamp and the closed range of wall-clock times seen.
///
/// A single event has `min_time == max_time`; combining unions the time
/// ranges and keeps the least lamport value.
#[derive(Clone, Copy, Debug, PartialEq, Eq, Structural, Hash)]
pub struct Key {
    pub min_lamport: u64,
    pub min_time: u64,
    pub max_time: u64,
}

impl Key {
    /// The key of a single event stamped `lamport` / `time`.
    pub fn single(lamport: u64, time: u64) -> (k: Key)
        ensures
            k == (Key { min_lamport: lamport, min_time: time, max_time: time }),
    {
        Key { min_lamport: lamport, min_time: time, max_time: time }
    }
}

impl Semigroup for Key {
    open spec fn combine_spec(self, b: Self) -> Self {
        Key {
            min_lamport: if self.min_lamport <= b.min_lamport {
                self.min_lamport
            } else {
                b.min_lamport
            },
            min_time: if self.min_time <= b.min_time {
                self.min_time
            } else {
                b.min_time
            },
            max_time: if self.max_time >= b.max_time {
                self.max_time
            } else {
                b.max_time
            },
        }
    }

    fn combine(&mut self, b: &Self) {
        if b.min_lamport < self.min_lamport {
            self.min_lamport = b.min_lamport;
        }
        if b.min_time < self.min_time {
            self.min_time = b.min_time;
        }
        if b.max_time > self.max_time {
            self.max_time = b.max_time;
        }
    }

    proof fn lemma_combine_assoc(a: Self, b: Self, c: Self) {
    }
}

} // verus!

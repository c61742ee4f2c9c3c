use vstd::prelude::*;

verus! {

/// Grouping capability for the fair containers. Values belong to the same
/// group when `is_same_group` returns true. The containers only ever call it
/// as `candidate.is_same_group(existing_representative)`; they tolerate any
/// predicate, including constant-false (every value its own group) and
/// constant-true (one group, plain FIFO/LIFO).
pub trait FairGroup: Sized {
    /// What `is_same_group` decides, as a mathematical predicate.
    spec fn same_group(self, other: Self) -> bool;

    /// Decides whether `self` belongs to the group represented by `other`.
    fn is_same_group(&self, other: &Self) -> (r: bool)
        ensures
            r == self.same_group(*other),
    ;
}

} // verus!

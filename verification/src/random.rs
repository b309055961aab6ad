//! What is known of a random source: which numbers were asked of it, and what it shuffled.
use vstd::prelude::*;

verus! {

/// A random source, together with the record of what was asked of it: for each draw the number of
/// outcomes and the outcome.
pub struct Source {
    record: Ghost<Seq<(nat, u128)>>,
}

impl View for Source {
    type V = Seq<(nat, u128)>;

    closed spec fn view(&self) -> Seq<(nat, u128)> {
        self.record@
    }
}

/// Whether a record is one of draws that were made, one after the other. What it says of the
/// outcomes beyond their ranges is not known outside this module: a record can only be had by
/// drawing.
pub closed spec fn is_record(record: Seq<(nat, u128)>) -> bool {
    forall|i: int| 0 <= i < record.len() ==> (#[trigger] record[i]).1 < record[i].0
}

/// Whether `after` is what shuffling made of `before`. Outside this module this can only be had by
/// shuffling.
pub closed spec fn is_shuffled<T>(before: Seq<T>, after: Seq<T>) -> bool {
    before.to_multiset() == after.to_multiset()
}

impl Source {
    /// A source of which nothing was asked.
    pub fn new() -> (r: Source)
        ensures
            r@ == Seq::<(nat, u128)>::empty(),
            is_record(r@),
    {
        Source { record: Ghost(Seq::empty()) }
    }
}

/// Every outcome in a record is one of those that could come out.
pub proof fn law_outcomes_in_range(record: Seq<(nat, u128)>, i: int)
    requires
        is_record(record),
        0 <= i < record.len(),
    ensures
        record[i].1 < record[i].0,
{
}

/// Where nothing was asked, nothing is recorded.
pub proof fn law_nothing_asked()
    ensures
        is_record(Seq::empty()),
{
}

/// Shuffling keeps the items.
pub proof fn law_shuffled_items<T>(before: Seq<T>, after: Seq<T>)
    requires
        is_shuffled(before, after),
    ensures
        before.to_multiset() == after.to_multiset(),
{
}

} // verus!

//! The selection entry and its delivery order.
//!
//! A `DataPair` is one candidate of a selection: a media id joined with
//! the timestamp of its record. Selection results are delivered sorted
//! by descending timestamp; equal timestamps have no inherent order, so
//! this crate fixes the tie-break deterministically: ascending media id.

use vstd::prelude::*;
use vstd::relations::total_ordering;

verus! {

/// One candidate of a selection: a media id and its record's timestamp.
#[derive(Clone, Copy, Debug, PartialEq, Eq, Structural)]
pub struct DataPair {
    pub id: u64,
    pub time: u64,
}

/// Delivery order of selection entries: `a` comes no later than `b`.
///
/// Entries are ordered by descending timestamp; ties between equal
/// timestamps are broken by ascending media id. This is the one
/// deterministic comparator used by every selection strategy.
pub open spec fn precedes(a: DataPair, b: DataPair) -> bool {
    a.time > b.time || (a.time == b.time && a.id <= b.id)
}

/// The delivery order as a relation value, as the sequence lemmas take it.
pub open spec fn delivery_order() -> spec_fn(DataPair, DataPair) -> bool {
    |a: DataPair, b: DataPair| precedes(a, b)
}

/// The delivery order is a total ordering: reflexive, antisymmetric,
/// transitive, and strongly connected. Sorting by it therefore has a
/// unique result, which is what makes the two selection strategies
/// interchangeable.
pub proof fn lemma_delivery_order_is_total()
    ensures
        total_ordering(delivery_order()),
{
}

} // verus!

//! Core of a "most recent media for a tag" query service.
//!
//! The verified core is the pair of hot-path subsystems that decide the
//! service's correctness under load: a fixed-capacity FIFO result cache
//! with a dedup invariant, and a bounded top-N selection engine with two
//! interchangeable strategies. Around them stands a query coordinator
//! that sequences index lookup, cache consultation, selection, and cache
//! population. Table loading, HTML rendering, and the HTTP layer are
//! external collaborators and live outside this crate.

pub mod structs;
pub mod select;
pub mod cache;
pub mod index;
pub mod query;

use vstd::prelude::*;

verus! {

/// Number of entries a freshly constructed result cache holds at most.
pub const CACHE_LENGTH: usize = 100;

/// Number of entries to show in a response: the N of top-N selection.
pub const ENTRY_COUNT: usize = 100;

/// Candidate-list size below which full sort is preferred over bounded
/// selection. Must be at least `ENTRY_COUNT` for the heuristic to be
/// meaningful.
pub const STRATEGY_BORDER: usize = 5000;

/// The configured defaults are consistent: the cache can hold at least
/// one entry, and the strategy border does not undercut the selection
/// count.
pub proof fn lemma_default_config_consistent()
    ensures
        ENTRY_COUNT <= STRATEGY_BORDER,
        1 <= CACHE_LENGTH,
{
}

} // verus!

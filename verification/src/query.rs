//! The query coordinator.
//!
//! `handle_query` is the core's boundary operation. It sequences one
//! query canonically: existence of the tag in the tag table is checked
//! first, and an unknown tag yields `NoMatch` without any cache
//! interaction; a known tag consults the cache (unless caching is
//! bypassed) and on a hit returns the cached content unchanged; on a
//! miss it joins the candidate list against the record table and
//! computes the selection, which the caller must hand to the external
//! renderer. `store_result` then populates the cache with the rendered
//! content. The split mirrors the one external collaborator the core
//! cannot contain: rendering a selection into opaque content.
//!
//! Under the concurrency protocol the caller owns the lock: it calls
//! `handle_query` under a shared read lock, and on `Render` retries or
//! re-runs the computation and `store_result` under the exclusive lock
//! it managed to take without blocking.

use vstd::prelude::*;
use crate::structs::DataPair;
use crate::select::{Strategy, selected, select, pick_strategy};
use crate::cache::{CacheContainer, cache_lookup, put_model};
use crate::index::{
    TagsTable, GeoTagsTable, tags_lookup, index_coherent, lemma_tags_lookup_characterize,
};

verus! {

/// Per-query options recognized by the coordinator.
pub struct QueryOptions {
    /// When false, both the cache read and the cache write are
    /// bypassed.
    pub use_cache: bool,
    /// When present, overrides the input-size heuristic. The selection
    /// result provably does not depend on it.
    pub strategy: Option<Strategy>,
}

impl Default for QueryOptions {
    /// Caching on, strategy left to the heuristic.
    fn default() -> (r: Self)
        ensures
            r.use_cache,
            r.strategy is None,
    {
        QueryOptions { use_cache: true, strategy: None }
    }
}

/// What one query step decides.
pub enum QueryStep {
    /// The tag has no entry in the tag table; the cache was not
    /// touched.
    NoMatch,
    /// The cache already holds content for the tag; serve it as is.
    Cached(String),
    /// The selection for the tag, computed from the live tables; the
    /// caller renders it and may store the rendered content.
    Render(Vec<DataPair>),
}

/// The candidate ids joined with the timestamps of their records.
pub open spec fn joined(ids: Seq<u64>, recs: Map<u64, u64>) -> Seq<DataPair> {
    ids.map_values(|id: u64| DataPair { id: id, time: recs[id] })
}

/// Join a candidate list against the record table. Total under the
/// referential-integrity precondition.
fn join(ids: &Vec<u64>, geotags: &GeoTagsTable) -> (r: Vec<DataPair>)
    requires
        forall|i: int| 0 <= i < ids@.len() ==> geotags@.contains_key(#[trigger] ids@[i]),
    ensures
        r@ == joined(ids@, geotags@),
{
    let mut r: Vec<DataPair> = Vec::new();
    let mut i: usize = 0;
    proof {
        assert(r@ =~= joined(ids@.take(0), geotags@));
    }
    while i < ids.len()
        invariant
            0 <= i <= ids@.len(),
            forall|k: int| 0 <= k < ids@.len() ==> geotags@.contains_key(#[trigger] ids@[k]),
            r@ == joined(ids@.take(i as int), geotags@),
        decreases ids@.len() - i,
    {
        let id = ids[i];
        let time_found = geotags.lookup(id);
        let time = time_found.unwrap();
        r.push(DataPair { id, time });
        proof {
            assert(ids@.take(i as int).push(id) =~= ids@.take(i as int + 1));
            assert(r@ =~= joined(ids@.take(i as int + 1), geotags@));
        }
        i = i + 1;
    }
    proof {
        assert(ids@.take(ids@.len() as int) =~= ids@);
    }
    r
}

/// One coordinated query step against the shared tables and the cache.
///
/// `n` is the configured selection count and `border` the strategy
/// border, which must not undercut `n` for the heuristic to be
/// meaningful. The returned step is fully determined by the inputs —
/// in particular it does not depend on which selection strategy runs.
pub fn handle_query(
    tags: &TagsTable,
    geotags: &GeoTagsTable,
    cache: &CacheContainer,
    tag: &String,
    opts: &QueryOptions,
    n: usize,
    border: usize,
) -> (r: QueryStep)
    requires
        index_coherent(tags@, geotags@),
        n <= border,
    ensures
        match r {
            QueryStep::NoMatch => tags_lookup(tags@, tag@) is None,
            QueryStep::Cached(c) => {
                &&& tags_lookup(tags@, tag@) is Some
                &&& opts.use_cache
                &&& cache_lookup(cache@, tag@) == Some(c@)
            },
            QueryStep::Render(sel) => {
                &&& tags_lookup(tags@, tag@) matches Some(ids) && sel@ == selected(
                    joined(ids, geotags@),
                    n as int,
                )
                &&& opts.use_cache ==> cache_lookup(cache@, tag@) is None
            },
        },
{
    match tags.lookup(tag) {
        None => QueryStep::NoMatch,
        Some(ids) => {
            if opts.use_cache {
                if let Some(content) = cache.get(tag) {
                    return QueryStep::Cached(content);
                }
            }
            proof {
                lemma_tags_lookup_characterize(tags@, tag@);
                let p = crate::index::tags_pos(tags@, tag@);
                assert forall|i: int| 0 <= i < ids@.len() implies geotags@.contains_key(
                    #[trigger] ids@[i],
                ) by {
                    assert(tags@[p].1[i] == ids@[i]);
                }
            }
            let pairs = join(ids, geotags);
            let strategy = match opts.strategy {
                Some(s) => s,
                None => pick_strategy(pairs.len(), border),
            };
            QueryStep::Render(select(&pairs, n, strategy))
        },
    }
}

/// Populate the cache with rendered content, unless the query bypassed
/// caching — then the cache is left exactly as it was.
pub fn store_result(cache: &mut CacheContainer, tag: String, content: String, opts: &QueryOptions)
    requires
        old(cache).well_formed(),
    ensures
        final(cache).well_formed(),
        final(cache).capacity_spec() == old(cache).capacity_spec(),
        opts.use_cache ==> final(cache)@ == put_model(
            old(cache)@,
            old(cache).capacity_spec(),
            tag@,
            content@,
        ),
        !opts.use_cache ==> final(cache)@ == old(cache)@,
{
    if opts.use_cache {
        cache.push(tag, content);
    }
}

} // verus!

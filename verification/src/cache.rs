//! Fixed-capacity result cache with pure insertion-order FIFO eviction.
//!
//! The cache maps a tag to rendered content. Its behaviour is stated
//! over an abstract view: the sequence of (tag, content) pairs in
//! insertion order, oldest first. The governing invariant: no two live
//! entries share a tag, and there are never more entries than the
//! capacity fixed at construction. A repeated `push` for a tag replaces
//! that tag's content in place and leaves its FIFO position unchanged;
//! a `push` of a new tag at capacity first evicts the single oldest
//! entry. Reads never mutate and never promote.
//!
//! The cache itself is a plain value. The concurrency protocol that
//! shares one instance between worker threads (shared read lock,
//! non-blocking exclusive lock, retry on contention) lives with the
//! caller that owns the lock; whatever mutual-exclusion primitive it
//! uses, every lock-protected mutation is one `push`, so the view
//! transformations stated here are exactly what later readers observe.

use vstd::prelude::*;

verus! {

/// One live cache entry: a tag and the content cached for it.
#[derive(Debug)]
pub struct CacheEntry {
    pub tag: String,
    pub content: String,
}

/// The abstract cache state: (tag, content) pairs, oldest first.
pub type CacheView = Seq<(Seq<char>, Seq<char>)>;

/// What a read returns: the content stored beside the first (and, under
/// `distinct_tags`, only) occurrence of the tag.
pub open spec fn cache_lookup(v: CacheView, tag: Seq<char>) -> Option<Seq<char>>
    decreases v.len(),
{
    if v.len() == 0 {
        None
    } else if v[0].0 == tag {
        Some(v[0].1)
    } else {
        cache_lookup(v.drop_first(), tag)
    }
}

/// Index of the first entry holding the tag.
pub open spec fn tag_pos(v: CacheView, tag: Seq<char>) -> int
    decreases v.len(),
{
    if v.len() == 0 {
        0
    } else if v[0].0 == tag {
        0
    } else {
        1 + tag_pos(v.drop_first(), tag)
    }
}

/// No two live entries share a tag: the dedup invariant.
pub open spec fn distinct_tags(v: CacheView) -> bool {
    forall|i: int, j: int| 0 <= i < j < v.len() ==> (#[trigger] v[i]).0 != (#[trigger] v[j]).0
}

/// What one `push` does to the abstract state: replace in place if the
/// tag is live, append if there is room, else evict the oldest entry
/// and append.
pub open spec fn put_model(v: CacheView, cap: int, tag: Seq<char>, content: Seq<char>) -> CacheView {
    if cache_lookup(v, tag) is Some {
        v.update(tag_pos(v, tag), (tag, content))
    } else if v.len() < cap {
        v.push((tag, content))
    } else {
        v.drop_first().push((tag, content))
    }
}

/// Links the recursive lookup to its index-wise meaning: a lookup
/// succeeds exactly when some entry holds the tag, and then it returns
/// the content at the first such index.
pub proof fn lemma_cache_lookup_characterize(v: CacheView, tag: Seq<char>)
    ensures
        (cache_lookup(v, tag) is Some) <==> exists|i: int|
            0 <= i < v.len() && (#[trigger] v[i]).0 == tag,
        cache_lookup(v, tag) is Some ==> {
            &&& 0 <= tag_pos(v, tag) < v.len()
            &&& v[tag_pos(v, tag)].0 == tag
            &&& cache_lookup(v, tag) == Some(v[tag_pos(v, tag)].1)
            &&& forall|j: int| 0 <= j < tag_pos(v, tag) ==> (#[trigger] v[j]).0 != tag
        },
    decreases v.len(),
{
    if v.len() == 0 {
    } else if v[0].0 == tag {
    } else {
        let rest = v.drop_first();
        lemma_cache_lookup_characterize(rest, tag);
        if cache_lookup(v, tag) is Some {
            assert(v[tag_pos(v, tag)] == rest[tag_pos(rest, tag)]);
            assert(forall|j: int|
                1 <= j < tag_pos(v, tag) ==> (#[trigger] v[j]).0 == rest[j - 1].0);
        } else {
            assert forall|i: int| 0 <= i < v.len() implies (#[trigger] v[i]).0 != tag by {
                if i > 0 {
                    assert(v[i] == rest[i - 1]);
                }
            }
        }
    }
}

/// A `push` preserves the governing invariant, and its effect on
/// occupancy is exact: replacing a live tag keeps the count, a new tag
/// grows it by one until the capacity is reached, and a new tag at
/// capacity keeps the count at the capacity.
pub proof fn lemma_put_model_preserves(v: CacheView, cap: int, tag: Seq<char>, content: Seq<char>)
    requires
        distinct_tags(v),
        v.len() <= cap,
        1 <= cap,
    ensures
        distinct_tags(put_model(v, cap, tag, content)),
        put_model(v, cap, tag, content).len() == if cache_lookup(v, tag) is Some {
            v.len() as int
        } else if v.len() < cap {
            v.len() as int + 1
        } else {
            cap
        },
{
    lemma_cache_lookup_characterize(v, tag);
    let r = put_model(v, cap, tag, content);
    if cache_lookup(v, tag) is Some {
        let p = tag_pos(v, tag);
        assert forall|a: int, b: int| 0 <= a < b < r.len() implies (#[trigger] r[a]).0 != (
        #[trigger] r[b]).0 by {
            assert(r[a].0 == v[a].0 && r[b].0 == v[b].0);
            assert(v[a].0 != v[b].0);
        }
    } else if v.len() < cap {
        assert forall|a: int, b: int| 0 <= a < b < r.len() implies (#[trigger] r[a]).0 != (
        #[trigger] r[b]).0 by {
            if b < v.len() {
                assert(v[a].0 != v[b].0);
            } else {
                assert(v[a].0 != tag);
            }
        }
    } else {
        assert forall|a: int, b: int| 0 <= a < b < r.len() implies (#[trigger] r[a]).0 != (
        #[trigger] r[b]).0 by {
            if b < r.len() - 1 {
                assert(v[a + 1].0 != v[b + 1].0);
            } else {
                assert(v[a + 1].0 != tag);
            }
        }
    }
}

/// Once a `push` for a tag has taken effect, a read of that tag
/// observes exactly the pushed content. Under a lock that publishes the
/// cache value, this is what a reader on any thread sees after the
/// writer releases it.
pub proof fn lemma_put_then_lookup(v: CacheView, cap: int, tag: Seq<char>, content: Seq<char>)
    requires
        distinct_tags(v),
        v.len() <= cap,
        1 <= cap,
    ensures
        cache_lookup(put_model(v, cap, tag, content), tag) == Some(content),
{
    lemma_cache_lookup_characterize(v, tag);
    let r = put_model(v, cap, tag, content);
    lemma_cache_lookup_characterize(r, tag);
    if cache_lookup(v, tag) is Some {
        let p = tag_pos(v, tag);
        assert(r[p].0 == tag);
        let q = tag_pos(r, tag);
        assert(q == p) by {
            if q < p {
                assert(r[q].0 == v[q].0);
            }
        }
    } else if v.len() < cap {
        let q = tag_pos(r, tag);
        assert(r[v.len() as int].0 == tag);
        assert(q == v.len() as int) by {
            if q < v.len() as int {
                assert(r[q].0 == v[q].0);
            }
        }
    } else {
        let q = tag_pos(r, tag);
        assert(r[r.len() - 1].0 == tag);
        assert(q == r.len() - 1) by {
            if q < r.len() - 1 {
                assert(r[q].0 == v[q + 1].0);
            }
        }
    }
}

/// The dedup law: pushing a tag twice replaces the content in place.
/// The second push changes neither the occupancy nor any entry's
/// position, and a read returns the latest content.
pub proof fn lemma_dedup(
    v: CacheView,
    cap: int,
    tag: Seq<char>,
    first: Seq<char>,
    second: Seq<char>,
)
    requires
        distinct_tags(v),
        v.len() <= cap,
        1 <= cap,
    ensures
        ({
            let v1 = put_model(v, cap, tag, first);
            let v2 = put_model(v1, cap, tag, second);
            &&& cache_lookup(v2, tag) == Some(second)
            &&& v2.len() == v1.len()
            &&& forall|i: int| 0 <= i < v1.len() ==> (#[trigger] v2[i]).0 == v1[i].0
        }),
{
    let v1 = put_model(v, cap, tag, first);
    let v2 = put_model(v1, cap, tag, second);
    lemma_put_model_preserves(v, cap, tag, first);
    lemma_put_then_lookup(v, cap, tag, first);
    lemma_put_model_preserves(v1, cap, tag, second);
    lemma_put_then_lookup(v1, cap, tag, second);
    lemma_cache_lookup_characterize(v1, tag);
}

/// The abstract state after a whole run of pushes, in order.
pub open spec fn puts_model(v: CacheView, cap: int, items: CacheView) -> CacheView
    decreases items.len(),
{
    if items.len() == 0 {
        v
    } else {
        put_model(
            puts_model(v, cap, items.drop_last()),
            cap,
            items.last().0,
            items.last().1,
        )
    }
}

/// Filling an empty cache with at most `cap` distinct tags keeps every
/// entry, in insertion order.
proof fn lemma_cache_fill(cap: int, items: CacheView)
    requires
        1 <= cap,
        items.len() <= cap,
        distinct_tags(items),
    ensures
        puts_model(Seq::empty(), cap, items) == items,
    decreases items.len(),
{
    if items.len() == 0 {
        assert(puts_model(Seq::empty(), cap, items) =~= items);
    } else {
        let pre = items.drop_last();
        assert(distinct_tags(pre)) by {
            assert(forall|i: int| 0 <= i < pre.len() ==> pre[i] == items[i]);
        }
        lemma_cache_fill(cap, pre);
        let last = items.last();
        lemma_cache_lookup_characterize(pre, last.0);
        assert(cache_lookup(pre, last.0) is None) by {
            assert forall|j: int| 0 <= j < pre.len() implies (#[trigger] pre[j]).0 != last.0 by {
                assert(items[j].0 != items[items.len() - 1].0);
            }
        }
        assert(pre.push((last.0, last.1)) =~= items);
    }
}

/// The FIFO eviction law: after `cap + 1` pushes of distinct tags into
/// an empty cache, the first-pushed tag is gone and each of the later
/// `cap` tags is cached with its own content.
pub proof fn lemma_fifo_eviction(cap: int, items: CacheView)
    requires
        1 <= cap,
        items.len() == cap + 1,
        distinct_tags(items),
    ensures
        cache_lookup(puts_model(Seq::empty(), cap, items), items[0].0) is None,
        forall|k: int|
            1 <= k <= cap ==> cache_lookup(puts_model(Seq::empty(), cap, items), (
            #[trigger] items[k]).0) == Some(items[k].1),
{
    let pre = items.drop_last();
    assert(distinct_tags(pre)) by {
        assert(forall|i: int| 0 <= i < pre.len() ==> pre[i] == items[i]);
    }
    lemma_cache_fill(cap, pre);
    let last = items.last();
    lemma_cache_lookup_characterize(pre, last.0);
    assert(cache_lookup(pre, last.0) is None) by {
        assert forall|j: int| 0 <= j < pre.len() implies (#[trigger] pre[j]).0 != last.0 by {
            assert(items[j].0 != items[items.len() - 1].0);
        }
    }
    let fin = puts_model(Seq::empty(), cap, items);
    assert(fin == pre.drop_first().push((last.0, last.1)));
    assert(fin.len() == cap);
    assert(forall|j: int| 0 <= j < cap ==> #[trigger] fin[j] == items[j + 1]);
    lemma_cache_lookup_characterize(fin, items[0].0);
    assert(cache_lookup(fin, items[0].0) is None) by {
        assert forall|j: int| 0 <= j < fin.len() implies (#[trigger] fin[j]).0 != items[0].0 by {
            assert(items[j + 1].0 != items[0].0);
        }
    }
    assert forall|k: int| 1 <= k <= cap implies cache_lookup(fin, (#[trigger] items[k]).0)
        == Some(items[k].1) by {
        lemma_cache_lookup_characterize(fin, items[k].0);
        assert(fin[k - 1].0 == items[k].0);
        let q = tag_pos(fin, items[k].0);
        assert(q == k - 1) by {
            if q < k - 1 {
                assert(fin[q].0 == items[q + 1].0);
                assert(items[q + 1].0 != items[k].0);
            }
        }
    }
}

/// Fixed-capacity FIFO cache from tag to rendered content.
///
/// Entries live in a plain vector in insertion order, oldest first, so
/// eviction is structurally tied to the index mapping and no stale
/// duplicate of a tag can survive a repeated `push`.
pub struct CacheContainer {
    entries: Vec<CacheEntry>,
    capacity: usize,
}

impl View for CacheContainer {
    type V = CacheView;

    closed spec fn view(&self) -> CacheView {
        Seq::new(self.entries@.len(), |i: int| (self.entries@[i].tag@, self.entries@[i].content@))
    }
}

impl CacheContainer {
    /// The capacity fixed at construction.
    pub closed spec fn capacity_spec(&self) -> int {
        self.capacity as int
    }

    /// The cache's governing invariant: positive capacity, never more
    /// entries than it, and no duplicate live tags.
    pub open spec fn well_formed(&self) -> bool {
        &&& 1 <= self.capacity_spec()
        &&& self@.len() <= self.capacity_spec()
        &&& distinct_tags(self@)
    }

    /// Construct a new empty cache holding at most `capacity` entries.
    pub fn new(capacity: usize) -> (r: Self)
        requires
            capacity >= 1,
        ensures
            r.well_formed(),
            r@ == Seq::<(Seq<char>, Seq<char>)>::empty(),
            r.capacity_spec() == capacity,
    {
        let r = CacheContainer { entries: Vec::new(), capacity };
        proof {
            assert(r@ =~= Seq::<(Seq<char>, Seq<char>)>::empty());
        }
        r
    }

    /// Number of live entries.
    pub fn len(&self) -> (r: usize)
        ensures
            r == self@.len(),
    {
        self.entries.len()
    }

    /// Index of the entry holding the tag, if one is live.
    fn find(&self, tag: &String) -> (r: Option<usize>)
        ensures
            match r {
                Some(i) => {
                    &&& cache_lookup(self@, tag@) is Some
                    &&& tag_pos(self@, tag@) == i as int
                    &&& 0 <= i < self@.len()
                },
                None => cache_lookup(self@, tag@) is None,
            },
    {
        let n = self.entries.len();
        let mut i: usize = 0;
        while i < n
            invariant
                0 <= i <= n,
                n == self@.len(),
                n == self.entries@.len(),
                forall|j: int| 0 <= j < i ==> (#[trigger] self@[j]).0 != tag@,
            decreases n - i,
        {
            if self.entries[i].tag == *tag {
                proof {
                    lemma_cache_lookup_characterize(self@, tag@);
                    assert(self@[i as int].0 == tag@);
                    assert(tag_pos(self@, tag@) == i as int) by {
                        let p = tag_pos(self@, tag@);
                        if p < i as int {
                            assert(self@[p].0 != tag@);
                        }
                        if p > i as int {
                            assert(self@[i as int].0 != tag@);
                        }
                    }
                }
                return Some(i);
            }
            i = i + 1;
        }
        proof {
            lemma_cache_lookup_characterize(self@, tag@);
        }
        None
    }

    /// Read the content cached for a tag. Read-only: takes `&self`, so
    /// no sequence of reads can change occupancy or eviction order.
    /// A hit never promotes the entry.
    pub fn get(&self, tag: &String) -> (r: Option<String>)
        ensures
            match r {
                Some(c) => cache_lookup(self@, tag@) == Some(c@),
                None => cache_lookup(self@, tag@) is None,
            },
    {
        match self.find(tag) {
            Some(i) => {
                proof {
                    lemma_cache_lookup_characterize(self@, tag@);
                    assert(cache_lookup(self@, tag@) == Some(self@[i as int].1));
                }
                Some(self.entries[i].content.clone())
            },
            None => None,
        }
    }

    /// Cache content for a tag. A live tag is updated in place with its
    /// FIFO position unchanged; a new tag is appended as the newest
    /// entry, after evicting the single oldest one if the cache is
    /// full.
    pub fn push(&mut self, tag: String, content: String)
        requires
            old(self).well_formed(),
        ensures
            final(self).well_formed(),
            final(self).capacity_spec() == old(self).capacity_spec(),
            final(self)@ == put_model(old(self)@, old(self).capacity_spec(), tag@, content@),
    {
        let ghost v0 = self@;
        let ghost cap = self.capacity_spec();
        proof {
            lemma_cache_lookup_characterize(v0, tag@);
        }
        match self.find(&tag) {
            Some(i) => {
                self.entries.set(i, CacheEntry { tag, content });
                proof {
                    assert(self@ =~= v0.update(i as int, (v0[i as int].0, self@[i as int].1)));
                    assert(self@ =~= put_model(v0, cap, self@[i as int].0, self@[i as int].1));
                    assert forall|a: int, b: int| 0 <= a < b < self@.len() implies (
                    #[trigger] self@[a]).0 != (#[trigger] self@[b]).0 by {
                        assert(v0[a].0 != v0[b].0);
                    }
                }
            },
            None => {
                if self.entries.len() == self.capacity {
                    self.entries.remove(0);
                    proof {
                        assert(self@ =~= v0.drop_first());
                    }
                    let ghost v1 = self@;
                    self.entries.push(CacheEntry { tag, content });
                    proof {
                        assert(self@ =~= v1.push((self@[v1.len() as int].0,
                        self@[v1.len() as int].1)));
                        assert(self@ =~= put_model(v0, cap, self@[v1.len() as int].0,
                        self@[v1.len() as int].1));
                        assert forall|a: int, b: int| 0 <= a < b < self@.len() implies (
                        #[trigger] self@[a]).0 != (#[trigger] self@[b]).0 by {
                            if b < self@.len() - 1 {
                                assert(v0[a + 1].0 != v0[b + 1].0);
                            } else {
                                assert(v0[a + 1].0 != tag@);
                            }
                        }
                    }
                } else {
                    let ghost v1 = self@;
                    self.entries.push(CacheEntry { tag, content });
                    proof {
                        assert(self@ =~= v1.push((self@[v1.len() as int].0,
                        self@[v1.len() as int].1)));
                        assert(self@ =~= put_model(v0, cap, self@[v1.len() as int].0,
                        self@[v1.len() as int].1));
                        assert forall|a: int, b: int| 0 <= a < b < self@.len() implies (
                        #[trigger] self@[a]).0 != (#[trigger] self@[b]).0 by {
                            if b < self@.len() - 1 {
                                assert(v0[a].0 != v0[b].0);
                            } else {
                                assert(v0[a].0 != tag@);
                            }
                        }
                    }
                }
            },
        }
    }
}

} // verus!

//! The two read-only lookup tables a query runs against.
//!
//! `TagsTable` maps a tag to the ordered candidate list of media ids
//! carrying it; `GeoTagsTable` maps a media id to the timestamp of its
//! geotagged record. Both are built once by the loader before any
//! query is served and only read afterwards; the loader also
//! establishes the referential-integrity precondition `index_coherent`:
//! every id in any candidate list resolves in the record table. Fields
//! of a record that only the renderer reads (coordinates, URL parts)
//! stay with the loader; selection needs nothing but the timestamp.

use vstd::prelude::*;
use std::collections::HashMap;

verus! {

/// The abstract tag table: (tag, candidate ids) pairs.
pub type TagsView = Seq<(Seq<char>, Seq<u64>)>;

/// What a tag lookup returns: the candidate list beside the first
/// (and, for a well-formed table, only) occurrence of the tag.
pub open spec fn tags_lookup(v: TagsView, tag: Seq<char>) -> Option<Seq<u64>>
    decreases v.len(),
{
    if v.len() == 0 {
        None
    } else if v[0].0 == tag {
        Some(v[0].1)
    } else {
        tags_lookup(v.drop_first(), tag)
    }
}

/// Index of the first entry holding the tag.
pub open spec fn tags_pos(v: TagsView, tag: Seq<char>) -> int
    decreases v.len(),
{
    if v.len() == 0 {
        0
    } else if v[0].0 == tag {
        0
    } else {
        1 + tags_pos(v.drop_first(), tag)
    }
}

/// No two entries of the tag table share a tag.
pub open spec fn distinct_tag_keys(v: TagsView) -> bool {
    forall|i: int, j: int| 0 <= i < j < v.len() ==> (#[trigger] v[i]).0 != (#[trigger] v[j]).0
}

/// Referential integrity between the tables: every id of every
/// candidate list has a record, so every join is total.
pub open spec fn index_coherent(tv: TagsView, gv: Map<u64, u64>) -> bool {
    forall|j: int, i: int|
        0 <= j < tv.len() && 0 <= i < tv[j].1.len() ==> gv.contains_key(#[trigger] tv[j].1[i])
}

/// What one `insert` does to the abstract table: replace the list in
/// place if the tag is present, else append the new entry.
pub open spec fn tags_put_model(v: TagsView, tag: Seq<char>, ids: Seq<u64>) -> TagsView {
    if tags_lookup(v, tag) is Some {
        v.update(tags_pos(v, tag), (tag, ids))
    } else {
        v.push((tag, ids))
    }
}

/// Links the recursive tag lookup to its index-wise meaning.
pub proof fn lemma_tags_lookup_characterize(v: TagsView, tag: Seq<char>)
    ensures
        (tags_lookup(v, tag) is Some) <==> exists|i: int|
            0 <= i < v.len() && (#[trigger] v[i]).0 == tag,
        tags_lookup(v, tag) is Some ==> {
            &&& 0 <= tags_pos(v, tag) < v.len()
            &&& v[tags_pos(v, tag)].0 == tag
            &&& tags_lookup(v, tag) == Some(v[tags_pos(v, tag)].1)
            &&& forall|j: int| 0 <= j < tags_pos(v, tag) ==> (#[trigger] v[j]).0 != tag
        },
    decreases v.len(),
{
    if v.len() == 0 {
    } else if v[0].0 == tag {
    } else {
        let rest = v.drop_first();
        lemma_tags_lookup_characterize(rest, tag);
        if tags_lookup(v, tag) is Some {
            assert(v[tags_pos(v, tag)] == rest[tags_pos(rest, tag)]);
            assert(forall|j: int|
                1 <= j < tags_pos(v, tag) ==> (#[trigger] v[j]).0 == rest[j - 1].0);
        } else {
            assert forall|i: int| 0 <= i < v.len() implies (#[trigger] v[i]).0 != tag by {
                if i > 0 {
                    assert(v[i] == rest[i - 1]);
                }
            }
        }
    }
}

/// Tag to ordered candidate-id list, built once at load time.
pub struct TagsTable {
    entries: Vec<(String, Vec<u64>)>,
}

impl View for TagsTable {
    type V = TagsView;

    closed spec fn view(&self) -> TagsView {
        Seq::new(self.entries@.len(), |i: int| (self.entries@[i].0@, self.entries@[i].1@))
    }
}

impl TagsTable {
    /// Each tag appears at most once.
    pub open spec fn well_formed(&self) -> bool {
        distinct_tag_keys(self@)
    }

    /// An empty table.
    pub fn new() -> (r: Self)
        ensures
            r.well_formed(),
            r@ == Seq::<(Seq<char>, Seq<u64>)>::empty(),
    {
        let r = TagsTable { entries: Vec::new() };
        proof {
            assert(r@ =~= Seq::<(Seq<char>, Seq<u64>)>::empty());
        }
        r
    }

    /// Index of the entry holding the tag, if any.
    fn find(&self, tag: &String) -> (r: Option<usize>)
        ensures
            match r {
                Some(i) => {
                    &&& tags_lookup(self@, tag@) is Some
                    &&& tags_pos(self@, tag@) == i as int
                    &&& 0 <= i < self@.len()
                },
                None => tags_lookup(self@, tag@) is None,
            },
    {
        let n = self.entries.len();
        let mut i: usize = 0;
        while i < n
            invariant
                0 <= i <= n,
                n == self@.len(),
                n == self.entries@.len(),
                forall|j: int| 0 <= j < i ==> (#[trigger] self@[j]).0 != tag@,
            decreases n - i,
        {
            if self.entries[i].0 == *tag {
                proof {
                    lemma_tags_lookup_characterize(self@, tag@);
                    assert(self@[i as int].0 == tag@);
                    assert(tags_pos(self@, tag@) == i as int) by {
                        let p = tags_pos(self@, tag@);
                        if p < i as int {
                            assert(self@[p].0 != tag@);
                        }
                        if p > i as int {
                            assert(self@[i as int].0 != tag@);
                        }
                    }
                }
                return Some(i);
            }
            i = i + 1;
        }
        proof {
            lemma_tags_lookup_characterize(self@, tag@);
        }
        None
    }

    /// The candidate list for a tag, shared read access.
    pub fn lookup(&self, tag: &String) -> (r: Option<&Vec<u64>>)
        ensures
            match r {
                Some(ids) => tags_lookup(self@, tag@) == Some(ids@),
                None => tags_lookup(self@, tag@) is None,
            },
    {
        match self.find(tag) {
            Some(i) => {
                proof {
                    lemma_tags_lookup_characterize(self@, tag@);
                }
                Some(&self.entries[i].1)
            },
            None => None,
        }
    }

    /// Whether a tag has an entry.
    pub fn contains(&self, tag: &String) -> (r: bool)
        ensures
            r == (tags_lookup(self@, tag@) is Some),
    {
        self.find(tag).is_some()
    }

    /// Bind a candidate list to a tag: a repeated tag replaces its
    /// list in place, a new tag is appended. Every other tag's lookup
    /// is untouched.
    pub fn insert(&mut self, tag: String, ids: Vec<u64>)
        requires
            old(self).well_formed(),
        ensures
            final(self).well_formed(),
            final(self)@ == tags_put_model(old(self)@, tag@, ids@),
            tags_lookup(final(self)@, tag@) == Some(ids@),
            forall|t: Seq<char>|
                t != tag@ ==> tags_lookup(final(self)@, t) == tags_lookup(old(self)@, t),
    {
        let ghost v0 = self@;
        proof {
            lemma_tags_lookup_characterize(v0, tag@);
        }
        match self.find(&tag) {
            Some(i) => {
                self.entries.set(i, (tag, ids));
                proof {
                    assert(self@ =~= v0.update(i as int, (v0[i as int].0, self@[i as int].1)));
                    assert(self@ =~= tags_put_model(v0, self@[i as int].0, self@[i as int].1));
                    lemma_assoc_frame(v0, self@, tag@);
                }
            },
            None => {
                self.entries.push((tag, ids));
                proof {
                    assert(self@ =~= v0.push((self@[v0.len() as int].0, self@[v0.len() as int].1)));
                    assert(self@ =~= tags_put_model(v0, self@[v0.len() as int].0,
                    self@[v0.len() as int].1));
                    lemma_assoc_frame(v0, self@, tag@);
                }
            },
        }
    }
}

/// Two tag tables that agree everywhere except possibly at one tag
/// have the same lookups away from it; at the tag itself, an entry
/// placed at the first matching position (or appended) is what the
/// lookup finds.
proof fn lemma_assoc_frame(v0: TagsView, v1: TagsView, tag: Seq<char>)
    requires
        // either an in-place replacement at the tag's first position...
        (tags_lookup(v0, tag) is Some && v1.len() == v0.len() && v1[tags_pos(v0, tag)].0 == tag
            && forall|k: int|
            0 <= k < v0.len() && k != tags_pos(v0, tag) ==> #[trigger] v1[k] == v0[k])
        // ...or an append of the tag to a table it was absent from
         || (tags_lookup(v0, tag) is None && v1.len() == v0.len() + 1 && v1[v0.len() as int].0
            == tag && forall|k: int| 0 <= k < v0.len() ==> #[trigger] v1[k] == v0[k]),
    ensures
        tags_lookup(v1, tag) is Some,
        tags_pos(v1, tag) == if tags_lookup(v0, tag) is Some {
            tags_pos(v0, tag)
        } else {
            v0.len() as int
        },
        tags_lookup(v1, tag) == Some(v1[tags_pos(v1, tag)].1),
        forall|t: Seq<char>| t != tag ==> tags_lookup(v1, t) == tags_lookup(v0, t),
        distinct_tag_keys(v0) ==> distinct_tag_keys(v1),
{
    lemma_tags_lookup_characterize(v0, tag);
    lemma_tags_lookup_characterize(v1, tag);
    if tags_lookup(v0, tag) is Some {
        let p = tags_pos(v0, tag);
        assert(v1[p].0 == tag);
        assert(tags_lookup(v1, tag) is Some);
        let q = tags_pos(v1, tag);
        assert(q == p) by {
            if q < p {
                assert(v1[q] == v0[q]);
                assert(v0[q].0 != tag);
            }
        }
        assert forall|t: Seq<char>| t != tag implies tags_lookup(v1, t) == tags_lookup(v0, t) by {
            lemma_assoc_lookup_pointwise(v0, v1, t);
        }
        assert(distinct_tag_keys(v0) ==> distinct_tag_keys(v1)) by {
            if distinct_tag_keys(v0) {
                assert forall|a: int, b: int| 0 <= a < b < v1.len() implies (#[trigger] v1[a]).0
                    != (#[trigger] v1[b]).0 by {
                    assert(v1[a].0 == v0[a].0 && v1[b].0 == v0[b].0);
                }
            }
        }
    } else {
        assert(v1[v0.len() as int].0 == tag);
        assert(tags_lookup(v1, tag) is Some);
        let q = tags_pos(v1, tag);
        assert(q == v0.len() as int) by {
            if q < v0.len() as int {
                assert(v1[q] == v0[q]);
                assert(v0[q].0 == tag);
            }
        }
        assert forall|t: Seq<char>| t != tag implies tags_lookup(v1, t) == tags_lookup(v0, t) by {
            lemma_assoc_lookup_pointwise(v0, v1, t);
        }
        assert(distinct_tag_keys(v0) ==> distinct_tag_keys(v1)) by {
            if distinct_tag_keys(v0) {
                assert forall|a: int, b: int| 0 <= a < b < v1.len() implies (#[trigger] v1[a]).0
                    != (#[trigger] v1[b]).0 by {
                    if b < v1.len() - 1 {
                        assert(v1[a].0 == v0[a].0 && v1[b].0 == v0[b].0);
                    } else {
                        assert(v1[a].0 == v0[a].0 && v0[a].0 != tag);
                    }
                }
            }
        }
    }
}

/// Lookup of `t` only reads entries whose key is `t`, so two tables
/// that agree on where `t` sits and what stands beside it look up `t`
/// alike.
proof fn lemma_assoc_lookup_pointwise(v0: TagsView, v1: TagsView, t: Seq<char>)
    requires
        forall|k: int|
            0 <= k < v1.len() && (#[trigger] v1[k]).0 == t ==> 0 <= k < v0.len() && v0[k] == v1[k],
        forall|k: int|
            0 <= k < v0.len() && (#[trigger] v0[k]).0 == t ==> 0 <= k < v1.len() && v0[k] == v1[k],
    ensures
        tags_lookup(v1, t) == tags_lookup(v0, t),
{
    lemma_tags_lookup_characterize(v0, t);
    lemma_tags_lookup_characterize(v1, t);
    if tags_lookup(v0, t) is Some {
        let p = tags_pos(v0, t);
        assert(v1[p].0 == t);
        let q = tags_pos(v1, t);
        assert(q == p) by {
            if q < p {
                assert(v0[q].0 != t);
                assert(v1[q] == v0[q]);
            }
            if p < q {
                assert(v1[p].0 != t);
            }
        }
    } else {
        if tags_lookup(v1, t) is Some {
            let q = tags_pos(v1, t);
            assert(v0[q].0 == t);
        }
    }
}

/// Media id to the timestamp of its record, built once at load time.
pub struct GeoTagsTable {
    map: HashMap<u64, u64>,
}

impl View for GeoTagsTable {
    type V = Map<u64, u64>;

    closed spec fn view(&self) -> Map<u64, u64> {
        self.map@
    }
}

impl GeoTagsTable {
    /// An empty table.
    pub fn new() -> (r: Self)
        ensures
            r@ == Map::<u64, u64>::empty(),
    {
        GeoTagsTable { map: HashMap::new() }
    }

    /// Record the timestamp of a media id.
    pub fn insert(&mut self, id: u64, time: u64)
        ensures
            final(self)@ == old(self)@.insert(id, time),
    {
        self.map.insert(id, time);
    }

    /// The timestamp recorded for a media id.
    pub fn lookup(&self, id: u64) -> (r: Option<u64>)
        ensures
            r == if self@.contains_key(id) {
                Some(self@[id])
            } else {
                None::<u64>
            },
    {
        match self.map.get(&id) {
            Some(t) => Some(*t),
            None => None,
        }
    }

    /// Number of records.
    pub fn len(&self) -> (r: usize)
        ensures
            r == self@.len(),
    {
        self.map.len()
    }
}

} // verus!

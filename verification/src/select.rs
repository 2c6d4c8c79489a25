//! Bounded top-N selection.
//!
//! Given a candidate list of entries, a selection returns the
//! `min(n, M)` entries that come first in delivery order (descending
//! timestamp, ties by ascending media id). Two interchangeable
//! algorithms compute it: a full sort of all candidates, favored for
//! small lists, and a bounded selection that keeps only the best `n`
//! seen so far, favored for large ones. Both are proved to return
//! `selected`, the same mathematical answer, so callers may pick either
//! or let the size heuristic decide.

use vstd::prelude::*;
use vstd::math::min;
use vstd::relations::sorted_by;
use vstd::seq_lib::lemma_sorted_unique;
use vstd::seq_lib::lemma_multiset_commutative;
use crate::structs::{DataPair, precedes, delivery_order, lemma_delivery_order_is_total};

verus! {

broadcast use vstd::seq_lib::group_to_multiset_ensures;

/// The whole candidate list ranked in delivery order.
pub open spec fn ranked(pairs: Seq<DataPair>) -> Seq<DataPair> {
    pairs.sort_by(delivery_order())
}

/// What a selection returns: the first `min(n, M)` entries of the
/// ranked candidate list. This single definition is the contract of
/// both selection strategies.
pub open spec fn selected(pairs: Seq<DataPair>, n: int) -> Seq<DataPair> {
    ranked(pairs).take(min(n, pairs.len() as int))
}

/// `x` inserted into `s` directly before the first entry it precedes.
spec fn insert_ranked(s: Seq<DataPair>, x: DataPair) -> Seq<DataPair>
    decreases s.len(),
{
    if s.len() == 0 {
        seq![x]
    } else if precedes(x, s[0]) {
        seq![x] + s
    } else {
        seq![s[0]] + insert_ranked(s.drop_first(), x)
    }
}

/// Ranked insertion always grows the sequence by exactly one entry.
proof fn lemma_insert_ranked_len(s: Seq<DataPair>, x: DataPair)
    ensures
        insert_ranked(s, x).len() == s.len() + 1,
    decreases s.len(),
{
    if s.len() == 0 {
    } else if precedes(x, s[0]) {
    } else {
        lemma_insert_ranked_len(s.drop_first(), x);
    }
}

/// Inserting into a sequence sorted by the delivery order keeps it
/// sorted and adds exactly the new entry.
proof fn lemma_insert_ranked_ensures(s: Seq<DataPair>, x: DataPair)
    requires
        sorted_by(s, delivery_order()),
    ensures
        sorted_by(insert_ranked(s, x), delivery_order()),
        insert_ranked(s, x).to_multiset() == s.to_multiset().insert(x),
        insert_ranked(s, x).len() == s.len() + 1,
    decreases s.len(),
{
    lemma_delivery_order_is_total();
    let r = insert_ranked(s, x);
    if s.len() == 0 {
        assert(r =~= Seq::empty().push(x));
        assert(r.to_multiset() =~= s.to_multiset().insert(x));
    } else if precedes(x, s[0]) {
        assert(r =~= Seq::empty().push(x) + s);
        lemma_multiset_commutative(Seq::empty().push(x), s);
        assert(r.to_multiset() =~= s.to_multiset().insert(x));
        assert forall|i: int, j: int| 0 <= i < j < r.len() implies #[trigger] delivery_order()(
            r[i],
            r[j],
        ) by {
            if i == 0 {
                assert(precedes(x, s[0]));
                if j > 1 {
                    assert(delivery_order()(s[0], s[j - 1]));
                }
            } else {
                assert(delivery_order()(s[i - 1], s[j - 1]));
            }
        }
    } else {
        let rest = s.drop_first();
        assert(sorted_by(rest, delivery_order())) by {
            assert forall|i: int, j: int| 0 <= i < j < rest.len() implies #[trigger] delivery_order()(
                rest[i],
                rest[j],
            ) by {
                assert(delivery_order()(s[i + 1], s[j + 1]));
            }
        }
        lemma_insert_ranked_ensures(rest, x);
        let sub = insert_ranked(rest, x);
        assert(r =~= Seq::empty().push(s[0]) + sub);
        lemma_multiset_commutative(Seq::empty().push(s[0]), sub);
        assert(s =~= Seq::empty().push(s[0]) + rest);
        lemma_multiset_commutative(Seq::empty().push(s[0]), rest);
        assert(r.to_multiset() =~= s.to_multiset().insert(x));
        // s[0] comes first: it precedes x and every entry of the rest.
        assert(precedes(s[0], x));
        assert forall|i: int, j: int| 0 <= i < j < r.len() implies #[trigger] delivery_order()(
            r[i],
            r[j],
        ) by {
            if i == 0 {
                let y = r[j];
                assert(sub[j - 1] == y);
                assert(sub.contains(y));
                assert(sub.to_multiset().count(y) > 0);
                if y == x {
                    assert(precedes(s[0], y));
                } else {
                    assert(rest.to_multiset().count(y) > 0);
                    assert(rest.contains(y));
                    let k = choose|k: int| 0 <= k < rest.len() && rest[k] == y;
                    assert(delivery_order()(s[0], s[k + 1]));
                }
            } else {
                assert(delivery_order()(sub[i - 1], sub[j - 1]));
            }
        }
    }
}

/// Ranking permutes the candidates, so it keeps their number.
proof fn lemma_ranked_len(pairs: Seq<DataPair>)
    ensures
        ranked(pairs).len() == pairs.len(),
{
    lemma_delivery_order_is_total();
    pairs.lemma_sort_by_ensures(delivery_order());
    assert(pairs.to_multiset().len() == ranked(pairs).to_multiset().len());
}

/// Ranking after appending one entry is insertion into the old ranking.
proof fn lemma_ranked_push(pairs: Seq<DataPair>, x: DataPair)
    ensures
        ranked(pairs.push(x)) == insert_ranked(ranked(pairs), x),
{
    lemma_delivery_order_is_total();
    pairs.lemma_sort_by_ensures(delivery_order());
    pairs.push(x).lemma_sort_by_ensures(delivery_order());
    lemma_insert_ranked_ensures(ranked(pairs), x);
    assert(pairs.push(x).to_multiset() =~= pairs.to_multiset().insert(x));
    assert(ranked(pairs.push(x)).to_multiset() =~= insert_ranked(ranked(pairs), x).to_multiset());
    lemma_sorted_unique(
        ranked(pairs.push(x)),
        insert_ranked(ranked(pairs), x),
        delivery_order(),
    );
}

/// Keeping only the first `n` entries commutes with ranked insertion:
/// entries beyond the first `n` can never push one of them out.
proof fn lemma_insert_ranked_take(s: Seq<DataPair>, x: DataPair, n: int)
    requires
        0 <= n <= s.len(),
    ensures
        insert_ranked(s, x).take(n) == insert_ranked(s.take(n), x).take(n),
    decreases n,
{
    if n == 0 {
        assert(insert_ranked(s, x).take(0) =~= insert_ranked(s.take(0), x).take(0));
    } else {
        // n >= 1, so s is non-empty and s.take(n) starts with s[0].
        assert(s.take(n)[0] == s[0]);
        assert(s.take(n).len() == n);
        if precedes(x, s[0]) {
            assert(insert_ranked(s, x) == seq![x] + s);
            assert(insert_ranked(s.take(n), x) == seq![x] + s.take(n));
            assert((seq![x] + s).take(n) =~= (seq![x] + s.take(n)).take(n));
        } else {
            let rest = s.drop_first();
            assert(insert_ranked(s, x) == seq![s[0]] + insert_ranked(rest, x));
            assert(insert_ranked(s.take(n), x) == seq![s[0]] + insert_ranked(
                s.take(n).drop_first(),
                x,
            ));
            assert(s.take(n).drop_first() =~= rest.take(n - 1));
            lemma_insert_ranked_take(rest, x, n - 1);
            lemma_insert_ranked_len(rest, x);
            lemma_insert_ranked_len(rest.take(n - 1), x);
            assert((seq![s[0]] + insert_ranked(rest, x)).take(n) =~= seq![s[0]]
                + insert_ranked(rest, x).take(n - 1));
            assert((seq![s[0]] + insert_ranked(rest.take(n - 1), x)).take(n) =~= seq![s[0]]
                + insert_ranked(rest.take(n - 1), x).take(n - 1));
        }
    }
}

/// Where the insertion lands: directly before the first entry that the
/// new one precedes, with everything else unmoved.
proof fn lemma_insert_ranked_at(s: Seq<DataPair>, x: DataPair, p: int)
    requires
        0 <= p <= s.len(),
        forall|j: int| 0 <= j < p ==> !precedes(x, #[trigger] s[j]),
        p < s.len() ==> precedes(x, s[p]),
    ensures
        insert_ranked(s, x) == s.take(p) + seq![x] + s.skip(p),
    decreases p,
{
    if p == 0 {
        if s.len() == 0 {
            assert(insert_ranked(s, x) =~= s.take(0) + seq![x] + s.skip(0));
        } else {
            assert(precedes(x, s[0]));
            assert(seq![x] + s =~= s.take(0) + seq![x] + s.skip(0));
        }
    } else {
        assert(!precedes(x, s[0]));
        let rest = s.drop_first();
        assert(forall|j: int| 0 <= j < p - 1 ==> !precedes(x, #[trigger] rest[j]));
        lemma_insert_ranked_at(rest, x, p - 1);
        assert(seq![s[0]] + (rest.take(p - 1) + seq![x] + rest.skip(p - 1)) =~= s.take(p) + seq![x]
            + s.skip(p));
    }
}

/// Which algorithm computes a selection. Both return exactly
/// `selected`, so the choice affects cost only.
#[derive(Clone, Copy, Debug, PartialEq, Eq, Structural)]
pub enum Strategy {
    FullSort,
    BoundedSelection,
}

/// Holds when every entry of `s` comes no later than `x` in delivery
/// order.
pub open spec fn all_precede(s: Seq<DataPair>, x: DataPair) -> bool {
    forall|i: int| 0 <= i < s.len() ==> precedes(#[trigger] s[i], x)
}

/// The delivery order, decided in executable code.
fn precedes_exec(a: &DataPair, b: &DataPair) -> (r: bool)
    ensures
        r == precedes(*a, *b),
{
    a.time > b.time || (a.time == b.time && a.id <= b.id)
}

/// Insert `x` into `v` directly before the first entry it precedes.
fn sorted_insert(v: &mut Vec<DataPair>, x: DataPair)
    ensures
        final(v)@ == insert_ranked(old(v)@, x),
{
    let mut i: usize = 0;
    while i < v.len() && !precedes_exec(&x, &v[i])
        invariant
            0 <= i <= v@.len(),
            v@ == old(v)@,
            forall|j: int| 0 <= j < i ==> !precedes(x, #[trigger] v@[j]),
        decreases v@.len() - i,
    {
        i = i + 1;
    }
    proof {
        lemma_insert_ranked_at(v@, x, i as int);
    }
    v.insert(i, x);
    proof {
        assert(final(v)@ =~= old(v)@.take(i as int) + seq![x] + old(v)@.skip(i as int));
    }
}

/// Full-sort strategy, first half: the whole candidate list brought
/// into delivery order by insertion sort.
fn rank_all(pairs: &Vec<DataPair>) -> (r: Vec<DataPair>)
    ensures
        r@ == ranked(pairs@),
{
    let mut r: Vec<DataPair> = Vec::new();
    let mut i: usize = 0;
    proof {
        assert(pairs@.take(0) =~= Seq::<DataPair>::empty());
        lemma_ranked_len(pairs@.take(0));
        assert(r@ =~= ranked(pairs@.take(0)));
    }
    while i < pairs.len()
        invariant
            0 <= i <= pairs@.len(),
            r@ == ranked(pairs@.take(i as int)),
        decreases pairs@.len() - i,
    {
        let x = pairs[i];
        proof {
            lemma_ranked_push(pairs@.take(i as int), x);
            assert(pairs@.take(i as int).push(x) =~= pairs@.take(i as int + 1));
        }
        sorted_insert(&mut r, x);
        i = i + 1;
    }
    proof {
        assert(pairs@.take(pairs@.len() as int) =~= pairs@);
    }
    r
}

/// Full-sort strategy: materialize and sort all `M` candidates, keep
/// the first `n`. Favored for small `M`.
pub fn select_full_sort(pairs: &Vec<DataPair>, n: usize) -> (r: Vec<DataPair>)
    ensures
        r@ == selected(pairs@, n as int),
{
    let mut r = rank_all(pairs);
    proof {
        lemma_delivery_order_is_total();
        pairs@.lemma_sort_by_ensures(delivery_order());
        lemma_ranked_len(pairs@);
        if n <= r@.len() {
            assert(r@.subrange(0, n as int) =~= selected(pairs@, n as int));
        } else {
            assert(r@ =~= selected(pairs@, n as int));
        }
    }
    r.truncate(n);
    r
}

/// Bounded-selection strategy: keep the best `n` entries seen so far in
/// delivery order; each further candidate either replaces the current
/// minimum or is discarded. Favored for large `M`.
pub fn select_bounded(pairs: &Vec<DataPair>, n: usize) -> (r: Vec<DataPair>)
    ensures
        r@ == selected(pairs@, n as int),
{
    let mut best: Vec<DataPair> = Vec::new();
    let mut i: usize = 0;
    proof {
        lemma_delivery_order_is_total();
        assert(pairs@.take(0) =~= Seq::<DataPair>::empty());
        Seq::<DataPair>::empty().lemma_sort_by_ensures(delivery_order());
        assert(selected(pairs@.take(0), n as int) =~= Seq::<DataPair>::empty());
    }
    while i < pairs.len()
        invariant
            0 <= i <= pairs@.len(),
            best@ == selected(pairs@.take(i as int), n as int),
            sorted_by(best@, delivery_order()),
            best@.len() == min(n as int, i as int),
        decreases pairs@.len() - i,
    {
        let ghost prefix = pairs@.take(i as int);
        let x = pairs[i];
        proof {
            lemma_delivery_order_is_total();
            prefix.lemma_sort_by_ensures(delivery_order());
            lemma_ranked_len(prefix);
            assert(ranked(prefix).len() == i as int);
            lemma_ranked_push(prefix, x);
            lemma_insert_ranked_len(ranked(prefix), x);
            assert(prefix.push(x) =~= pairs@.take(i as int + 1));
        }
        if best.len() < n {
            proof {
                assert(best@ =~= ranked(prefix));
                lemma_insert_ranked_ensures(best@, x);
            }
            sorted_insert(&mut best, x);
            proof {
                assert(best@ =~= selected(pairs@.take(i as int + 1), n as int));
            }
        } else if n > 0 {
            let last = best[n - 1];
            proof {
                assert(min(n as int, i as int) == n as int);
                assert(best@ =~= ranked(prefix).take(n as int));
                lemma_insert_ranked_take(ranked(prefix), x, n as int);
            }
            if precedes_exec(&x, &last) {
                proof {
                    lemma_insert_ranked_ensures(best@, x);
                }
                sorted_insert(&mut best, x);
                best.pop();
                proof {
                    assert(best@ =~= insert_ranked(ranked(prefix).take(n as int), x).take(
                        n as int,
                    ));
                    assert(best@ =~= selected(pairs@.take(i as int + 1), n as int));
                }
            } else {
                proof {
                    assert forall|j: int| 0 <= j < best@.len() implies !precedes(
                        x,
                        #[trigger] best@[j],
                    ) by {
                        if precedes(x, best@[j]) {
                            if j < n - 1 {
                                assert(delivery_order()(best@[j], best@[n - 1]));
                            }
                            assert(precedes(x, last));
                        }
                    }
                    lemma_insert_ranked_at(best@, x, best@.len() as int);
                    assert(insert_ranked(best@, x) =~= best@ + seq![x]);
                    assert(insert_ranked(best@, x).take(n as int) =~= best@);
                    assert(best@ =~= selected(pairs@.take(i as int + 1), n as int));
                }
            }
        } else {
            proof {
                assert(best@ =~= selected(pairs@.take(i as int + 1), 0));
            }
        }
        i = i + 1;
    }
    proof {
        assert(pairs@.take(pairs@.len() as int) =~= pairs@);
    }
    best
}

/// The boundary operation of the selector: computes `selected` with
/// whichever strategy the caller names. That the result does not depend
/// on the strategy is exactly what the shared postcondition states.
pub fn select(pairs: &Vec<DataPair>, n: usize, strategy: Strategy) -> (r: Vec<DataPair>)
    ensures
        r@ == selected(pairs@, n as int),
{
    match strategy {
        Strategy::FullSort => select_full_sort(pairs, n),
        Strategy::BoundedSelection => select_bounded(pairs, n),
    }
}

/// The default input-size heuristic: full sort below the border,
/// bounded selection from it on.
pub fn pick_strategy(m: usize, border: usize) -> (s: Strategy)
    ensures
        s == if m < border {
            Strategy::FullSort
        } else {
            Strategy::BoundedSelection
        },
{
    if m < border {
        Strategy::FullSort
    } else {
        Strategy::BoundedSelection
    }
}

/// What every selection result looks like: `min(n, M)` entries, sorted
/// in delivery order, all drawn from the candidates, and preceding
/// every candidate that was left out. In particular an empty candidate
/// list yields an empty result, and fewer than `n` candidates are all
/// kept, fully sorted.
pub proof fn lemma_selected_properties(pairs: Seq<DataPair>, n: int)
    requires
        0 <= n,
    ensures
        selected(pairs, n).len() == min(n, pairs.len() as int),
        sorted_by(selected(pairs, n), delivery_order()),
        forall|x: DataPair| #[trigger] selected(pairs, n).contains(x) ==> pairs.contains(x),
        forall|x: DataPair|
            #[trigger] pairs.contains(x) && !selected(pairs, n).contains(x) ==> all_precede(
                selected(pairs, n),
                x,
            ),
{
    lemma_delivery_order_is_total();
    pairs.lemma_sort_by_ensures(delivery_order());
    let r = ranked(pairs);
    let k = min(n, pairs.len() as int);
    let sel = selected(pairs, n);
    lemma_ranked_len(pairs);
    assert(sel =~= r.take(k));
    assert forall|x: DataPair| #[trigger] sel.contains(x) implies pairs.contains(x) by {
        let i = choose|i: int| 0 <= i < sel.len() && sel[i] == x;
        assert(r[i] == x);
        assert(r.contains(x));
        assert(r.to_multiset().count(x) > 0);
        assert(pairs.to_multiset().count(x) > 0);
    }
    assert forall|x: DataPair|
        #[trigger] pairs.contains(x) && !sel.contains(x) implies all_precede(sel, x) by {
        assert(pairs.to_multiset().count(x) > 0);
        assert(r.to_multiset().count(x) > 0);
        assert(r.contains(x));
        let p = choose|p: int| 0 <= p < r.len() && r[p] == x;
        assert(p >= k) by {
            if p < k {
                assert(sel[p] == x);
                assert(sel.contains(x));
            }
        }
        assert forall|i: int| 0 <= i < sel.len() implies precedes(#[trigger] sel[i], x) by {
            assert(sel[i] == r[i]);
            assert(delivery_order()(r[i], r[p]));
        }
    }
}

} // verus!

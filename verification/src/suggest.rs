//! The suggestion engine: ranks the corpus of known tags against a typed
//! query by fuzzy similarity, excludes the entries that do not match at all,
//! and memoizes the ranked lists in a bounded, least-recently-used cache that
//! every corpus change invalidates.
//!
//! Matching is case-insensitive: both sides are ASCII-case-folded before
//! they are compared. Results are ordered by descending score; entries with
//! equal scores keep their corpus order.

use vstd::prelude::*;
use vstd::multiset::Multiset;
use vstd::relations::{sorted_by, total_ordering};
use vstd::seq_lib::lemma_sorted_unique;
use vstd::seq_lib::group_to_multiset_ensures;
use crate::chars::{fold_seq, fold_chars, views};

verus! {

/// The similarity score of two character sequences: the raw bit pattern of
/// the trigram similarity that the fuzzy matcher computes. The similarity
/// lies in [0.0, 1.0], so the bit pattern preserves its order and is zero
/// exactly when the similarity is zero.
pub uninterp spec fn score_of(query: Seq<char>, entry: Seq<char>) -> u32;

/// Relies on rust_fuzzy_search::fuzzy_compare: the trigram similarity of two
/// strings, a pure function of them, clamped to [0.0, 1.0] and never NaN.
/// For such values f32::to_bits is order-preserving and zero exactly on
/// score zero; identical strings score 1.0, a nonzero pattern.
#[verifier::external_body]
fn match_score(query: &Vec<char>, entry: &Vec<char>) -> (r: u32)
    ensures
        r == score_of(query@, entry@),
        query@ == entry@ ==> r >= 1,
{
    let q: String = query.iter().collect();
    let e: String = entry.iter().collect();
    rust_fuzzy_search::fuzzy_compare(&q, &e).to_bits()
}

/// Ranking order on (score, corpus index) pairs: higher scores first, ties
/// in corpus order. A total ordering.
pub open spec fn rank_leq(a: (u32, int), b: (u32, int)) -> bool {
    a.0 > b.0 || (a.0 == b.0 && a.1 <= b.1)
}

/// The ranking order as a relation value.
pub open spec fn rank_order() -> spec_fn((u32, int), (u32, int)) -> bool {
    |a: (u32, int), b: (u32, int)| rank_leq(a, b)
}

/// The ranking order is a total ordering.
pub proof fn lemma_rank_order_total()
    ensures
        total_ordering(rank_order()),
{
    let r = rank_order();
    assert forall|x: (u32, int)| #[trigger] r(x, x) by {}
    assert forall|x: (u32, int), y: (u32, int)| #[trigger] r(x, y) && #[trigger] r(y, x) implies x
        == y by {}
    assert forall|x: (u32, int), y: (u32, int), z: (u32, int)|
        #[trigger] r(x, y) && #[trigger] r(y, z) implies r(x, z) by {}
    assert forall|x: (u32, int), y: (u32, int)| #[trigger] r(x, y) || #[trigger] r(y, x) by {}
}

/// Every corpus entry scored against the case-folded query, paired with its
/// corpus index.
pub open spec fn scored_pairs(query: Seq<char>, corpus: Seq<Seq<char>>) -> Seq<(u32, int)> {
    Seq::new(corpus.len(), |i: int| (score_of(fold_seq(query), fold_seq(corpus[i])), i))
}

/// The scored pairs that matched at all: score zero is the exclusion
/// threshold.
pub open spec fn positive_pairs(query: Seq<char>, corpus: Seq<Seq<char>>) -> Seq<(u32, int)> {
    scored_pairs(query, corpus).filter(|p: (u32, int)| p.0 > 0)
}

/// The ranked suggestions for a query: the matching corpus entries, best
/// scores first, ties in corpus order.
pub open spec fn suggestions_for(query: Seq<char>, corpus: Seq<Seq<char>>) -> Seq<Seq<char>> {
    positive_pairs(query, corpus).sort_by(rank_order()).map_values(|p: (u32, int)| corpus[p.1])
}

/// Every matching pair carries its corpus index and that entry's positive
/// score.
proof fn lemma_positive_pairs_shape(query: Seq<char>, corpus: Seq<Seq<char>>)
    ensures
        forall|k: int|
            0 <= k < positive_pairs(query, corpus).len() ==> {
                let p = #[trigger] positive_pairs(query, corpus)[k];
                &&& 0 <= p.1 < corpus.len()
                &&& p.0 == score_of(fold_seq(query), fold_seq(corpus[p.1]))
                &&& p.0 > 0
            },
{
    let scored = scored_pairs(query, corpus);
    let pos = positive_pairs(query, corpus);
    let pred = |p: (u32, int)| p.0 > 0;
    assert forall|k: int| 0 <= k < pos.len() implies {
        let p = #[trigger] pos[k];
        &&& 0 <= p.1 < corpus.len()
        &&& p.0 == score_of(fold_seq(query), fold_seq(corpus[p.1]))
        &&& p.0 > 0
    } by {
        scored.lemma_filter_pred(pred, k);
        assert(scored.filter(pred).contains(pos[k]));
        scored.lemma_filter_contains_rev(pred, pos[k]);
        let i = choose|i: int| 0 <= i < scored.len() && scored[i] == pos[k];
        assert(scored[i] == (score_of(fold_seq(query), fold_seq(corpus[i])), i));
    }
}

/// The view of a vector of (score, index) pairs.
pub open spec fn pair_views(s: Seq<(u32, usize)>) -> Seq<(u32, int)> {
    s.map_values(|p: (u32, usize)| (p.0, p.1 as int))
}

/// Executable ranking order.
fn rank_leq_exec(a: (u32, usize), b: (u32, usize)) -> (r: bool)
    ensures
        r == rank_leq((a.0, a.1 as int), (b.0, b.1 as int)),
{
    a.0 > b.0 || (a.0 == b.0 && a.1 <= b.1)
}

/// Sorts (score, index) pairs by the ranking order: selection sort, smallest
/// under the order (that is: best score, earliest index) first.
fn sort_ranked(input: Vec<(u32, usize)>) -> (r: Vec<(u32, usize)>)
    ensures
        sorted_by(pair_views(r@), rank_order()),
        pair_views(r@).to_multiset() == pair_views(input@).to_multiset(),
{
    broadcast use group_to_multiset_ensures;
    broadcast use vstd::multiset::group_multiset_axioms;

    let mut work = input;
    let mut out: Vec<(u32, usize)> = Vec::new();
    proof {
        assert(pair_views(out@).to_multiset() =~= Multiset::<(u32, int)>::empty());
        assert(pair_views(out@).to_multiset().add(pair_views(work@).to_multiset()) =~= pair_views(
            work@,
        ).to_multiset());
    }
    while work.len() > 0
        invariant
            pair_views(out@).to_multiset().add(pair_views(work@).to_multiset()) == pair_views(
                input@,
            ).to_multiset(),
            forall|i: int, j: int|
                0 <= i < j < out@.len() ==> rank_leq(
                    #[trigger] pair_views(out@)[i],
                    #[trigger] pair_views(out@)[j],
                ),
            forall|i: int, k: int|
                0 <= i < out@.len() && 0 <= k < work@.len() ==> rank_leq(
                    #[trigger] pair_views(out@)[i],
                    #[trigger] pair_views(work@)[k],
                ),
        decreases work@.len(),
    {
        // find the least remaining pair under the ranking order
        let mut m: usize = 0;
        let mut t: usize = 1;
        while t < work.len()
            invariant
                work@.len() > 0,
                m < t,
                t <= work@.len(),
                forall|k: int|
                    0 <= k < t ==> rank_leq(
                        pair_views(work@)[m as int],
                        #[trigger] pair_views(work@)[k],
                    ),
            decreases work@.len() - t,
        {
            if rank_leq_exec(work[t], work[m]) {
                m = t;
            }
            t = t + 1;
        }
        let ghost pre_work = work@;
        let ghost min = pair_views(work@)[m as int];
        let item = work.remove(m);
        proof {
            broadcast use group_to_multiset_ensures;
            broadcast use vstd::multiset::group_multiset_axioms;

            assert(pair_views(pre_work)[m as int] == (item.0, item.1 as int));
            assert(pair_views(work@) =~= pair_views(pre_work).remove(m as int));
            assert(pair_views(pre_work).remove(m as int).to_multiset() =~= pair_views(
                pre_work,
            ).to_multiset().remove(min));
            assert(pair_views(work@).to_multiset() =~= pair_views(pre_work).to_multiset().remove(
                min,
            ));
            assert(pair_views(pre_work).contains(min));
            assert(pair_views(pre_work).to_multiset().count(min) > 0);
        }
        let ghost pre_out = out@;
        out.push(item);
        proof {
            broadcast use group_to_multiset_ensures;
            broadcast use vstd::multiset::group_multiset_axioms;

            assert(pair_views(out@) =~= pair_views(pre_out).push(min));
            assert(pair_views(pre_out).push(min).to_multiset() =~= pair_views(
                pre_out,
            ).to_multiset().insert(min));
            assert(pair_views(out@).to_multiset() =~= pair_views(pre_out).to_multiset().insert(
                min,
            ));
            assert(pair_views(out@).to_multiset().add(pair_views(work@).to_multiset())
                =~= pair_views(pre_out).to_multiset().add(pair_views(pre_work).to_multiset()));
            // the pushed pair keeps the prefix sorted and bounds the rest
            assert forall|i: int, j: int|
                0 <= i < j < out@.len() implies rank_leq(
                #[trigger] pair_views(out@)[i],
                #[trigger] pair_views(out@)[j],
            ) by {
                assert(pair_views(out@)[i] == pair_views(pre_out)[i]);
                if j == out@.len() - 1 {
                    assert(pair_views(out@)[j] == min);
                    assert(rank_leq(pair_views(pre_out)[i], pair_views(pre_work)[m as int]));
                } else {
                    assert(pair_views(out@)[j] == pair_views(pre_out)[j]);
                }
            }
            assert forall|i: int, k: int|
                0 <= i < out@.len() && 0 <= k < work@.len() implies rank_leq(
                #[trigger] pair_views(out@)[i],
                #[trigger] pair_views(work@)[k],
            ) by {
                let b = pair_views(work@)[k];
                let kk = if k < m as int {
                    k
                } else {
                    k + 1
                };
                assert(b == pair_views(pre_work)[kk]);
                assert(rank_leq(min, b));
                if i < out@.len() - 1 {
                    assert(pair_views(out@)[i] == pair_views(pre_out)[i]);
                    assert(rank_leq(pair_views(pre_out)[i], min));
                }
            }
        }
    }
    proof {
        assert(pair_views(work@).to_multiset() =~= Multiset::<(u32, int)>::empty());
        assert(pair_views(out@).to_multiset().add(Multiset::<(u32, int)>::empty()) =~= pair_views(
            out@,
        ).to_multiset());
        let r = rank_order();
        assert forall|i: int, j: int|
            0 <= i < j < pair_views(out@).len() implies #[trigger] r(
            pair_views(out@)[i],
            pair_views(out@)[j],
        ) by {
            assert(rank_leq(pair_views(out@)[i], pair_views(out@)[j]));
        }
    }
    out
}

/// Computes the ranked suggestions for `query` over the corpus: scores every
/// entry against the case-folded query, keeps the matching ones, and orders
/// them by descending score with ties in corpus order. A query that is
/// itself a corpus entry is always among its own suggestions.
pub fn compute_suggestions(query: &str, corpus: &Vec<String>) -> (r: Vec<String>)
    ensures
        views(r@) == suggestions_for(query@, views(corpus@)),
        views(corpus@).contains(query@) ==> views(r@).contains(query@),
{
    broadcast use group_to_multiset_ensures;

    let ghost cv = views(corpus@);
    let ghost scored = scored_pairs(query@, cv);
    let fq = fold_chars(query);
    let mut pairs: Vec<(u32, usize)> = Vec::new();
    let mut j: usize = 0;
    proof {
        assert(pair_views(pairs@) =~= scored.take(0).filter(|p: (u32, int)| p.0 > 0)) by {
            reveal(Seq::filter);
            assert(scored.take(0) =~= Seq::<(u32, int)>::empty());
        }
    }
    while j < corpus.len()
        invariant
            cv == views(corpus@),
            scored == scored_pairs(query@, cv),
            fq@ == fold_seq(query@),
            j <= corpus@.len(),
            pair_views(pairs@) == scored.take(j as int).filter(|p: (u32, int)| p.0 > 0),
            forall|k: int| 0 <= k < j && cv[k] == query@ ==> (#[trigger] scored[k]).0 >= 1,
        decreases corpus@.len() - j,
    {
        let fe = fold_chars(corpus[j].as_str());
        let sc = match_score(&fq, &fe);
        proof {
            assert(fe@ == fold_seq(cv[j as int]));
            assert(scored[j as int] == (sc, j as int));
            lemma_filter_push_pair(scored.take(j as int), scored[j as int]);
            assert(scored.take(j + 1) =~= scored.take(j as int).push(scored[j as int]));
            if sc > 0 {
                assert(pair_views(pairs@.push((sc, j))) =~= pair_views(pairs@).push(
                    (sc, j as int),
                ));
            }
        }
        if sc > 0 {
            pairs.push((sc, j));
        }
        j = j + 1;
    }
    proof {
        assert(scored.take(corpus@.len() as int) =~= scored);
    }
    let sorted = sort_ranked(pairs);
    let ghost pos = positive_pairs(query@, cv);
    let ghost spec_sorted = pos.sort_by(rank_order());
    proof {
        lemma_rank_order_total();
        pos.lemma_sort_by_ensures(rank_order());
        lemma_sorted_unique(pair_views(sorted@), spec_sorted, rank_order());
        assert(pair_views(sorted@) == spec_sorted);
        lemma_positive_pairs_shape(query@, cv);
        // every ranked pair is one of the matching pairs
        assert forall|k: int|
            0 <= k < spec_sorted.len() implies 0 <= (#[trigger] spec_sorted[k]).1 < cv.len() by {
            assert(spec_sorted.to_multiset().contains(spec_sorted[k]));
            assert(pos.to_multiset().contains(spec_sorted[k]));
            assert(pos.contains(spec_sorted[k]));
            let i = choose|i: int| 0 <= i < pos.len() && pos[i] == spec_sorted[k];
        }
    }
    let mut out: Vec<String> = Vec::new();
    let mut k: usize = 0;
    while k < sorted.len()
        invariant
            cv == views(corpus@),
            pair_views(sorted@) == spec_sorted,
            spec_sorted == positive_pairs(query@, cv).sort_by(rank_order()),
            forall|i: int| 0 <= i < spec_sorted.len() ==> 0 <= (#[trigger] spec_sorted[i]).1
                < cv.len(),
            k <= sorted@.len(),
            views(out@) == spec_sorted.take(k as int).map_values(|p: (u32, int)| cv[p.1]),
        decreases sorted@.len() - k,
    {
        let idx = sorted[k].1;
        proof {
            let p = sorted@[k as int];
            assert(pair_views(sorted@)[k as int] == (p.0, p.1 as int));
            assert((p.0, p.1 as int) == spec_sorted[k as int]);
        }
        let entry = corpus[idx].clone();
        let ghost pre_out = out@;
        out.push(entry);
        proof {
            let p = sorted@[k as int];
            assert(spec_sorted[k as int].1 == p.1 as int);
            assert(views(corpus@)[p.1 as int] == corpus@[p.1 as int]@);
            assert(entry@ == cv[spec_sorted[k as int].1]);
            assert(views(out@) =~~= views(pre_out).push(entry@));
            assert(spec_sorted.take(k + 1) =~= spec_sorted.take(k as int).push(
                spec_sorted[k as int],
            ));
            assert(views(out@) =~~= spec_sorted.take(k + 1).map_values(|p: (u32, int)| cv[p.1]));
        }
        k = k + 1;
    }
    proof {
        assert(spec_sorted.take(sorted@.len() as int) =~= spec_sorted);
        assert(views(out@) == suggestions_for(query@, cv));
        // a query that is a corpus entry scores against itself and survives
        if cv.contains(query@) {
            let j0 = choose|j0: int| 0 <= j0 < cv.len() && cv[j0] == query@;
            assert(scored[j0].0 >= 1);
            scored.lemma_filter_contains(|p: (u32, int)| p.0 > 0, j0);
            assert(pos.contains(scored[j0]));
            assert(pos.to_multiset().contains(scored[j0]));
            assert(spec_sorted.to_multiset().contains(scored[j0]));
            assert(spec_sorted.contains(scored[j0]));
            let k0 = choose|k0: int| 0 <= k0 < spec_sorted.len() && spec_sorted[k0] == scored[j0];
            assert(views(out@)[k0] == cv[j0]);
            assert(views(out@).contains(query@));
        }
    }
    out
}

/// How many query results the suggestion cache holds at most.
pub const SUGGESTION_CACHE_CAPACITY: usize = 20;

/// A counter increased by one, saturating at its largest value.
pub open spec fn bump(n: u64) -> u64 {
    if n < u64::MAX {
        (n + 1) as u64
    } else {
        n
    }
}

/// Copies a list of strings.
fn clone_string_vec(v: &Vec<String>) -> (r: Vec<String>)
    ensures
        r@ == v@,
{
    let mut r: Vec<String> = Vec::new();
    let mut i: usize = 0;
    while i < v.len()
        invariant
            i <= v@.len(),
            r@ == v@.take(i as int),
        decreases v@.len() - i,
    {
        let s = v[i].clone();
        r.push(s);
        proof {
            assert(r@ =~= v@.take(i + 1));
        }
        i = i + 1;
    }
    proof {
        assert(v@.take(v@.len() as int) =~= v@);
    }
    r
}

/// The index of the cache entry keyed by `q`; meaningful only when one
/// exists (the keys are distinct, so it is then unique).
pub open spec fn key_index(cache: Seq<(String, Vec<String>)>, q: Seq<char>) -> int {
    choose|i: int| 0 <= i < cache.len() && (#[trigger] cache[i]).0@ == q
}

/// Index of the cached result for `query`, if one is cached.
fn cache_find(cache: &Vec<(String, Vec<String>)>, query: &String) -> (r: Option<usize>)
    ensures
        match r {
            Some(i) => i < cache@.len() && cache@[i as int].0@ == query@,
            None => forall|k: int| 0 <= k < cache@.len() ==> (#[trigger] cache@[k]).0@ != query@,
        },
{
    let mut j: usize = 0;
    while j < cache.len()
        invariant
            j <= cache@.len(),
            forall|k: int| 0 <= k < j ==> (#[trigger] cache@[k]).0@ != query@,
        decreases cache@.len() - j,
    {
        if cache[j].0 == *query {
            return Some(j);
        }
        j = j + 1;
    }
    None
}

/// The suggestion engine: the category store's corpus, a bounded
/// least-recently-used cache of ranked suggestion lists keyed by the literal
/// query string, and a counter of how often the ranking was computed.
pub struct SuggestionEngine {
    /// The persisted corpus the suggestions are drawn from.
    pub store: crate::categories::CategoryStore,
    /// Cached results, least recently used first; each value is the ranked
    /// suggestion list of its key over the current corpus.
    pub cache: Vec<(String, Vec<String>)>,
    /// How often a suggestion list had to be computed (a cache miss).
    pub misses: u64,
}

impl SuggestionEngine {
    /// The known tags, as character sequences.
    pub open spec fn corpus(self) -> Seq<Seq<char>> {
        self.store.corpus()
    }

    /// The queries whose results are cached.
    pub open spec fn cache_keys(self) -> Seq<Seq<char>> {
        self.cache@.map_values(|e: (String, Vec<String>)| e.0@)
    }

    /// Is a result for this query cached?
    pub open spec fn cached(self, q: Seq<char>) -> bool {
        self.cache_keys().contains(q)
    }

    /// One cache entry is sound: its value is the ranked suggestion list of
    /// its key over this corpus, and a key that is itself a corpus entry is
    /// among its own suggestions.
    pub open spec fn entry_sound(e: (String, Vec<String>), corpus: Seq<Seq<char>>) -> bool {
        &&& views(e.1@) == suggestions_for(e.0@, corpus)
        &&& corpus.contains(e.0@) ==> views(e.1@).contains(e.0@)
    }

    /// Well-formedness: the store is well-formed, the cache is bounded, its
    /// keys are distinct, and every entry is sound for the current corpus.
    pub open spec fn wf(self) -> bool {
        &&& self.store.wf()
        &&& self.cache@.len() <= SUGGESTION_CACHE_CAPACITY as int
        &&& forall|i: int, j: int|
            0 <= i < j < self.cache@.len() ==> (#[trigger] self.cache@[i]).0@ != (
            #[trigger] self.cache@[j]).0@
        &&& forall|i: int|
            0 <= i < self.cache@.len() ==> Self::entry_sound(
                #[trigger] self.cache@[i],
                self.corpus(),
            )
    }

    /// A fresh engine over a loaded category store, with an empty cache.
    pub fn new(store: crate::categories::CategoryStore) -> (r: SuggestionEngine)
        requires
            store.wf(),
        ensures
            r.wf(),
            r.store == store,
            r.cache@.len() == 0,
            r.misses == 0,
    {
        SuggestionEngine { store, cache: Vec::new(), misses: 0 }
    }

    /// How often the ranking was computed rather than served from the cache.
    pub fn misses(&self) -> (r: u64)
        ensures
            r == self.misses,
    {
        self.misses
    }

    /// The ranked suggestions for `query`: served unchanged from the cache
    /// when the same query was asked before, computed and cached otherwise.
    /// The cache is kept in recency order: a hit moves its entry to the
    /// back, a miss appends the new entry, evicting the front entry — the
    /// least recently used one — when the cache is full. A query that is
    /// itself a known tag is always among its own suggestions.
    pub fn suggest(&mut self, query: &str) -> (r: Vec<String>)
        requires
            old(self).wf(),
        ensures
            final(self).wf(),
            final(self).store == old(self).store,
            views(r@) == suggestions_for(query@, old(self).corpus()),
            old(self).corpus().contains(query@) ==> views(r@).contains(query@),
            final(self).cached(query@),
            old(self).cached(query@) ==> final(self).misses == old(self).misses,
            !old(self).cached(query@) ==> final(self).misses == bump(old(self).misses),
            old(self).cached(query@) ==> {
                let i = key_index(old(self).cache@, query@);
                &&& 0 <= i < old(self).cache@.len()
                &&& old(self).cache@[i].0@ == query@
                &&& final(self).cache@ == old(self).cache@.remove(i).push(old(self).cache@[i])
            },
            !old(self).cached(query@) ==> {
                &&& final(self).cache@.len() > 0
                &&& final(self).cache@.drop_last() == (
                if old(self).cache@.len() >= SUGGESTION_CACHE_CAPACITY as int {
                    old(self).cache@.drop_first()
                } else {
                    old(self).cache@
                })
                &&& final(self).cache@.last().0@ == query@
                &&& views(final(self).cache@.last().1@) == suggestions_for(
                    query@,
                    old(self).corpus(),
                )
            },
    {
        let qkey: String = query.to_owned();
        match cache_find(&self.cache, &qkey) {
            Some(i) => {
                // hit: refresh recency, return the cached list unchanged
                let ghost pre = self.cache@;
                assert(pre.map_values(|e: (String, Vec<String>)| e.0@)[i as int] == query@);
                let entry = self.cache.remove(i);
                self.cache.push(entry);
                proof {
                    assert(self.cache@ =~= pre.remove(i as int).push(pre[i as int]));
                    assert forall|k: int| 0 <= k < self.cache@.len() implies exists|k0: int|
                        0 <= k0 < pre.len() && #[trigger] self.cache@[k] == pre[k0] by {
                        if k == self.cache@.len() - 1 {
                            assert(self.cache@[k] == pre[i as int]);
                        } else {
                            let k0 = if k < i as int {
                                k
                            } else {
                                k + 1
                            };
                            assert(self.cache@[k] == pre[k0]);
                        }
                    }
                    assert forall|a: int, b: int|
                        0 <= a < b < self.cache@.len() implies (#[trigger] self.cache@[a]).0@ != (
                    #[trigger] self.cache@[b]).0@ by {
                        let a0 = if a < i as int {
                            a
                        } else {
                            a + 1
                        };
                        if b == self.cache@.len() - 1 {
                            assert(self.cache@[a] == pre[a0] && self.cache@[b] == pre[i as int]);
                        } else {
                            let b0 = if b < i as int {
                                b
                            } else {
                                b + 1
                            };
                            assert(self.cache@[a] == pre[a0] && self.cache@[b] == pre[b0]);
                        }
                    }
                    assert(self.cache@[self.cache@.len() - 1].0@ == query@);
                    assert(self.cache_keys()[self.cache@.len() - 1] == query@);
                    // the found index is the unique one the contract names
                    let ki = key_index(pre, query@);
                    assert(0 <= ki < pre.len() && pre[ki].0@ == query@) by {
                        assert(pre[i as int].0@ == query@);
                    }
                    assert(ki == i as int) by {
                        if ki != i as int {
                            assert(pre[ki].0@ == pre[i as int].0@);
                        }
                    }
                }
                let r = clone_string_vec(&self.cache[self.cache.len() - 1].1);
                proof {
                    assert(Self::entry_sound(pre[i as int], self.corpus()));
                }
                r
            },
            None => {
                // miss: compute, cache, count
                let r = compute_suggestions(query, self.store.snapshot());
                if self.cache.len() >= SUGGESTION_CACHE_CAPACITY {
                    let ghost pre = self.cache@;
                    self.cache.remove(0);
                    proof {
                        assert(self.cache@ =~= pre.remove(0));
                        assert(self.cache@ =~= pre.drop_first());
                        assert(forall|k: int|
                            0 <= k < self.cache@.len() ==> #[trigger] self.cache@[k] == pre[k + 1]);
                    }
                }
                let ghost mid = self.cache@;
                let stored = clone_string_vec(&r);
                self.cache.push((qkey, stored));
                proof {
                    assert(self.cache@ =~= mid.push((qkey, stored)));
                    assert(self.cache@.drop_last() =~= mid);
                    assert(self.cache@[self.cache@.len() - 1].0@ == query@);
                    assert(self.cache_keys()[self.cache@.len() - 1] == query@);
                    assert(views(stored@) == suggestions_for(query@, self.corpus()));
                }
                self.misses = if self.misses < u64::MAX {
                    self.misses + 1
                } else {
                    self.misses
                };
                r
            },
        }
    }

    /// Drops every cached result. Must accompany any corpus change: cached
    /// rankings are stale once the corpus differs from the one they were
    /// computed over.
    pub fn invalidate(&mut self)
        requires
            old(self).wf(),
        ensures
            final(self).wf(),
            final(self).cache@.len() == 0,
            final(self).store == old(self).store,
            final(self).misses == old(self).misses,
    {
        self.cache.clear();
    }

    /// Adds a tag to the corpus (idempotent) and invalidates the whole
    /// cache. Returns whether the corpus changed; when it did, the caller
    /// must persist the text that `save_categories` returns.
    pub fn add_category(&mut self, tag: String) -> (r: bool)
        requires
            old(self).wf(),
        ensures
            final(self).wf(),
            final(self).misses == old(self).misses,
            final(self).cache@.len() == 0,
            final(self).store.store.path == old(self).store.store.path,
            r == !old(self).corpus().contains(tag@),
            r ==> final(self).corpus() == old(self).corpus().push(tag@),
            !r ==> final(self).corpus() == old(self).corpus(),
    {
        self.invalidate();
        self.store.add(tag)
    }

    /// The serialized corpus, for the embedding program to persist. Success
    /// depends on the corpus alone, and the returned document parses back to
    /// exactly the known tags.
    pub fn save_categories(&self) -> (r: Option<String>)
        ensures
            (r is Some) <==> (crate::data_store::yaml_of_corpus(self.corpus()) is Some),
            r is Some ==> r->Some_0@ == crate::data_store::yaml_of_corpus(self.corpus())->Some_0,
            r is Some ==> crate::data_store::corpus_of_yaml(r->Some_0@) == Some(self.corpus()),
    {
        self.store.save()
    }
}

/// Filtering a pushed pair appends it exactly when its score is positive.
proof fn lemma_filter_push_pair(s: Seq<(u32, int)>, x: (u32, int))
    ensures
        s.push(x).filter(|p: (u32, int)| p.0 > 0) == if x.0 > 0 {
            s.filter(|p: (u32, int)| p.0 > 0).push(x)
        } else {
            s.filter(|p: (u32, int)| p.0 > 0)
        },
{
    reveal(Seq::filter);
    assert(s.push(x).drop_last() =~= s);
    assert(s.push(x).last() == x);
}

} // verus!

//! A persisted store of unique strings. The store holds the strings in
//! insertion order, serializes itself to a YAML sequence, and is rebuilt
//! from such a document. The embedding program reads and writes the file at
//! the recorded path; this module only computes the texts.

use vstd::prelude::*;
use crate::chars::views;
use crate::collection::distinct_seq;

verus! {

/// The YAML document that serde_yaml renders a given list of strings as, or
/// `None` when the serializer fails on it; either way a function of the list
/// alone.
pub uninterp spec fn yaml_of_corpus(items: Seq<Seq<char>>) -> Option<Seq<char>>;

/// The list of strings that serde_yaml parses a given document as, or `None`
/// when the document is not a YAML sequence of strings.
pub uninterp spec fn corpus_of_yaml(text: Seq<char>) -> Option<Seq<Seq<char>>>;

/// Relies on serde_yaml::to_string: renders a list of strings as a YAML
/// sequence document. Success and text are functions of the list alone, and
/// the document parses back (serde_yaml::from_str) to exactly that list.
#[verifier::external_body]
fn corpus_to_yaml(data: &Vec<String>) -> (r: Option<String>)
    ensures
        (r is Some) <==> (yaml_of_corpus(views(data@)) is Some),
        r is Some ==> r->Some_0@ == yaml_of_corpus(views(data@))->Some_0,
        r is Some ==> corpus_of_yaml(r->Some_0@) == Some(views(data@)),
{
    serde_yaml::to_string(data).ok()
}

/// Relies on serde_yaml::from_str: parses a YAML sequence of strings, a pure
/// function of the text; fails exactly on documents of another shape.
#[verifier::external_body]
fn yaml_to_corpus(text: &str) -> (r: Option<Vec<String>>)
    ensures
        (r is Some) <==> (corpus_of_yaml(text@) is Some),
        r is Some ==> views(r.unwrap()@) == corpus_of_yaml(text@)->Some_0,
{
    serde_yaml::from_str::<Vec<String>>(text).ok()
}

/// Why a store could not be rebuilt from a persisted document.
#[derive(Debug, Clone, Copy, PartialEq, Eq, Structural)]
pub enum StoreError {
    /// The document is not a YAML sequence of strings. Fatal: proceeding
    /// with an empty corpus would silently lose the persisted data.
    MalformedCorpus,
}

/// `s` with every element that already occurred earlier dropped; the first
/// occurrences keep their order.
pub open spec fn dedup_views(s: Seq<Seq<char>>) -> Seq<Seq<char>>
    decreases s.len(),
{
    if s.len() == 0 {
        s
    } else {
        let d = dedup_views(s.drop_last());
        if s.drop_last().contains(s.last()) {
            d
        } else {
            d.push(s.last())
        }
    }
}

/// Deduplication yields a distinct sequence with the same members, and
/// leaves an already-distinct sequence unchanged.
pub proof fn lemma_dedup_views(s: Seq<Seq<char>>)
    ensures
        distinct_seq(dedup_views(s)),
        forall|x: Seq<char>| dedup_views(s).contains(x) <==> s.contains(x),
        distinct_seq(s) ==> dedup_views(s) == s,
    decreases s.len(),
{
    if s.len() > 0 {
        let t = s.drop_last();
        lemma_dedup_views(t);
        let d = dedup_views(t);
        assert(forall|k: int| 0 <= k < t.len() ==> t[k] == s[k]);
        assert forall|x: Seq<char>| dedup_views(s).contains(x) implies s.contains(x) by {
            if d.contains(x) {
                assert(t.contains(x));
                let k = choose|k: int| 0 <= k < t.len() && t[k] == x;
                assert(s[k] == x);
            } else {
                assert(x == s.last());
            }
        }
        assert forall|x: Seq<char>| s.contains(x) implies dedup_views(s).contains(x) by {
            let k = choose|k: int| 0 <= k < s.len() && s[k] == x;
            if k < s.len() - 1 {
                assert(t[k] == x);
                assert(t.contains(x));
                assert(d.contains(x));
                if !t.contains(s.last()) {
                    let j = choose|j: int| 0 <= j < d.len() && d[j] == x;
                    assert(d.push(s.last())[j] == x);
                }
            } else {
                if t.contains(s.last()) {
                    assert(d.contains(x));
                } else {
                    assert(d.push(s.last()).last() == x);
                }
            }
        }
        if !t.contains(s.last()) {
            assert(distinct_seq(d.push(s.last()))) by {
                assert forall|i: int, j: int|
                    0 <= i < j < d.push(s.last()).len() implies d.push(s.last())[i] != d.push(
                    s.last(),
                )[j] by {
                    if j == d.len() {
                        if d.push(s.last())[i] == s.last() {
                            assert(d.contains(s.last()));
                        }
                    }
                }
            }
        }
        if distinct_seq(s) {
            assert(!t.contains(s.last())) by {
                if t.contains(s.last()) {
                    let k = choose|k: int| 0 <= k < t.len() && t[k] == s.last();
                    assert(s[k] == s[s.len() - 1]);
                }
            }
            assert(distinct_seq(t));
            assert(d.push(s.last()) =~~= s);
        }
    }
}

/// Deduplicating one more element keeps it exactly when it is new.
proof fn lemma_dedup_push(s: Seq<Seq<char>>, x: Seq<char>)
    ensures
        dedup_views(s.push(x)) == if s.contains(x) {
            dedup_views(s)
        } else {
            dedup_views(s).push(x)
        },
{
    assert(s.push(x).drop_last() =~~= s);
    assert(s.push(x).last() == x);
}

/// Does the list hold a string with this text?
fn contains_string(v: &Vec<String>, s: &String) -> (b: bool)
    ensures
        b == views(v@).contains(s@),
{
    let mut j: usize = 0;
    while j < v.len()
        invariant
            j <= v@.len(),
            forall|k: int| 0 <= k < j ==> views(v@)[k] != s@,
        decreases v@.len() - j,
    {
        if v[j] == *s {
            assert(views(v@)[j as int] == s@);
            return true;
        }
        j = j + 1;
    }
    false
}

/// Keeps the first occurrence of every string, in order.
fn dedup_strings(data: Vec<String>) -> (r: Vec<String>)
    ensures
        views(r@) == dedup_views(views(data@)),
        distinct_seq(views(r@)),
{
    let mut kept: Vec<String> = Vec::new();
    let mut i: usize = 0;
    proof {
        assert(views(data@).take(0) =~~= Seq::<Seq<char>>::empty());
        assert(views(kept@) =~~= dedup_views(views(data@).take(0)));
    }
    while i < data.len()
        invariant
            i <= data@.len(),
            views(kept@) == dedup_views(views(data@).take(i as int)),
        decreases data@.len() - i,
    {
        let is_old = contains_string(&kept, &data[i]);
        proof {
            let vs = views(data@);
            lemma_dedup_push(vs.take(i as int), vs[i as int]);
            assert(vs.take(i + 1) =~~= vs.take(i as int).push(vs[i as int]));
            lemma_dedup_views(vs.take(i as int));
            if is_old {
                assert(views(kept@) =~~= dedup_views(vs.take(i + 1)));
            } else {
                assert(views(kept@.push(data@[i as int])) =~~= dedup_views(vs.take(i + 1)));
            }
        }
        if !is_old {
            let item = data[i].clone();
            kept.push(item);
        }
        i = i + 1;
    }
    proof {
        assert(views(data@).take(data@.len() as int) =~~= views(data@));
        lemma_dedup_views(views(data@));
    }
    kept
}

/// A persisted store of unique strings.
pub struct DataStore {
    /// The stored strings, pairwise distinct, in insertion order.
    pub data: Vec<String>,
    /// Where the embedding program persists the serialized store.
    pub path: String,
}

impl DataStore {
    /// The stored strings, as character sequences.
    pub open spec fn corpus(self) -> Seq<Seq<char>> {
        views(self.data@)
    }

    /// Well-formedness: no string is stored twice.
    pub open spec fn wf(self) -> bool {
        distinct_seq(self.corpus())
    }

    /// A store over the given strings, to be persisted at `source`;
    /// duplicates are dropped, first occurrences keep their order.
    pub fn new_from_data(source: &str, data: Vec<String>) -> (r: DataStore)
        ensures
            r.wf(),
            r.corpus() == dedup_views(views(data@)),
            r.path@ == source@,
    {
        DataStore { data: dedup_strings(data), path: source.to_owned() }
    }

    /// Rebuilds a store from a persisted document; fails exactly when the
    /// document is not a YAML sequence of strings.
    pub fn new_from_text(source: &str, text: &str) -> (r: Result<DataStore, StoreError>)
        ensures
            (r is Ok) <==> (corpus_of_yaml(text@) is Some),
            match r {
                Ok(s) => {
                    &&& s.wf()
                    &&& s.corpus() == dedup_views(corpus_of_yaml(text@)->Some_0)
                    &&& s.path@ == source@
                },
                Err(e) => e == StoreError::MalformedCorpus,
            },
    {
        match yaml_to_corpus(text) {
            Some(data) => Ok(DataStore { data: dedup_strings(data), path: source.to_owned() }),
            None => Err(StoreError::MalformedCorpus),
        }
    }

    /// The serialized form of the store, for the embedding program to write
    /// to the recorded path. Whether serialization succeeds depends on the
    /// stored strings alone, and the returned document parses back to
    /// exactly them: a store rebuilt from it holds the same strings.
    pub fn save(&self) -> (r: Option<String>)
        ensures
            (r is Some) <==> (yaml_of_corpus(self.corpus()) is Some),
            r is Some ==> r->Some_0@ == yaml_of_corpus(self.corpus())->Some_0,
            r is Some ==> corpus_of_yaml(r->Some_0@) == Some(self.corpus()),
    {
        corpus_to_yaml(&self.data)
    }

    /// Does the store hold this string?
    pub fn contains(&self, s: &String) -> (b: bool)
        ensures
            b == self.corpus().contains(s@),
    {
        contains_string(&self.data, s)
    }

    /// Inserts a string; idempotent. Returns whether the store changed.
    pub fn insert(&mut self, tag: String) -> (r: bool)
        requires
            old(self).wf(),
        ensures
            final(self).wf(),
            final(self).path == old(self).path,
            r == !old(self).corpus().contains(tag@),
            r ==> final(self).corpus() == old(self).corpus().push(tag@),
            !r ==> *final(self) == *old(self),
    {
        if contains_string(&self.data, &tag) {
            false
        } else {
            proof {
                let vs = views(self.data@);
                assert(distinct_seq(vs.push(tag@))) by {
                    assert forall|i: int, j: int|
                        0 <= i < j < vs.push(tag@).len() implies vs.push(tag@)[i] != vs.push(
                        tag@,
                    )[j] by {
                        if j == vs.len() && vs.push(tag@)[i] == tag@ {
                            assert(vs.contains(tag@));
                        }
                    }
                }
                assert(views(self.data@.push(tag)) =~~= vs.push(tag@));
            }
            self.data.push(tag);
            true
        }
    }

    /// The stored strings, in order.
    pub fn items(&self) -> (r: &Vec<String>)
        ensures
            r@ == self.data@,
    {
        &self.data
    }
}

} // verus!

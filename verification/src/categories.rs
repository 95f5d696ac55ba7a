//! The category store: the persisted corpus of known tags and categories
//! offered as suggestions. Loaded once at startup from a YAML document, or
//! seeded from a built-in default when none is persisted yet; a malformed
//! document is fatal. Every addition is followed by a full rewrite of the
//! persisted file, which the embedding program performs with the text that
//! `save` returns.

use vstd::prelude::*;
use crate::chars::views;
use crate::collection::distinct_seq;
use crate::data_store::{DataStore, StoreError, dedup_views, lemma_dedup_views, corpus_of_yaml, yaml_of_corpus};

verus! {

/// The built-in default corpus, used when nothing is persisted yet.
pub open spec fn default_corpus() -> Seq<Seq<char>> {
    seq![
        seq!['a', 'r', 't'],
        seq!['m', 'e', 'm', 'e', 's'],
        seq!['p', 'h', 'o', 't', 'o', 's'],
        seq!['s', 'c', 'r', 'e', 'e', 'n', 's', 'h', 'o', 't', 's'],
        seq!['w', 'a', 'l', 'l', 'p', 'a', 'p', 'e', 'r', 's'],
    ]
}

/// The built-in default categories.
pub fn default_categories() -> (r: Vec<String>)
    ensures
        views(r@) == default_corpus(),
        distinct_seq(views(r@)),
{
    let mut r: Vec<String> = Vec::new();
    r.push("art".to_owned());
    r.push("memes".to_owned());
    r.push("photos".to_owned());
    r.push("screenshots".to_owned());
    r.push("wallpapers".to_owned());
    proof {
        reveal_strlit("art");
        reveal_strlit("memes");
        reveal_strlit("photos");
        reveal_strlit("screenshots");
        reveal_strlit("wallpapers");
        assert("art"@ =~= seq!['a', 'r', 't']);
        assert("memes"@ =~= seq!['m', 'e', 'm', 'e', 's']);
        assert("photos"@ =~= seq!['p', 'h', 'o', 't', 'o', 's']);
        assert("screenshots"@ =~= seq!['s', 'c', 'r', 'e', 'e', 'n', 's', 'h', 'o', 't', 's']);
        assert("wallpapers"@ =~= seq!['w', 'a', 'l', 'l', 'p', 'a', 'p', 'e', 'r', 's']);
        assert(views(r@) =~~= default_corpus());
    }
    r
}

/// The persisted corpus of known tags and categories.
pub struct CategoryStore {
    /// The underlying persisted store.
    pub store: DataStore,
}

impl CategoryStore {
    /// The known tags, as character sequences, in insertion order.
    pub open spec fn corpus(self) -> Seq<Seq<char>> {
        self.store.corpus()
    }

    /// Well-formedness of the underlying store.
    pub open spec fn wf(self) -> bool {
        self.store.wf()
    }

    /// Builds the store from the persisted document at `path`, handed over
    /// by the embedding program: `None` when no document exists yet (the
    /// store is then seeded from the built-in defaults, and the caller
    /// should persist it), a malformed document is a fatal error.
    pub fn load(path: &str, text: Option<&str>) -> (r: Result<CategoryStore, StoreError>)
        ensures
            match text {
                None => r is Ok && r->Ok_0.corpus() == default_corpus(),
                Some(t) => {
                    &&& (r is Ok) <==> (corpus_of_yaml(t@) is Some)
                    &&& match r {
                        Ok(s) => s.corpus() == dedup_views(corpus_of_yaml(t@)->Some_0),
                        Err(e) => e == StoreError::MalformedCorpus,
                    }
                },
            },
            r is Ok ==> r->Ok_0.wf() && r->Ok_0.store.path@ == path@,
    {
        match text {
            None => {
                let data = default_categories();
                proof {
                    lemma_dedup_views(views(data@));
                }
                Ok(CategoryStore { store: DataStore::new_from_data(path, data) })
            },
            Some(t) => {
                match DataStore::new_from_text(path, t) {
                    Ok(store) => Ok(CategoryStore { store }),
                    Err(e) => Err(e),
                }
            },
        }
    }

    /// Inserts a tag; idempotent. Returns whether the corpus changed; when
    /// it did, the caller must persist the text that `save` returns and
    /// invalidate any suggestion cache.
    pub fn add(&mut self, tag: String) -> (r: bool)
        requires
            old(self).wf(),
        ensures
            final(self).wf(),
            final(self).store.path == old(self).store.path,
            r == !old(self).corpus().contains(tag@),
            r ==> final(self).corpus() == old(self).corpus().push(tag@),
            !r ==> *final(self) == *old(self),
    {
        self.store.insert(tag)
    }

    /// The known tags, in insertion order: the read-only view handed to the
    /// suggestion engine.
    pub fn snapshot(&self) -> (r: &Vec<String>)
        ensures
            r@ == self.store.data@,
    {
        self.store.items()
    }

    /// The serialized corpus, for the embedding program to persist. Success
    /// depends on the corpus alone, and the returned document parses back to
    /// exactly the known tags: a store loaded from it holds the same corpus.
    pub fn save(&self) -> (r: Option<String>)
        ensures
            (r is Some) <==> (yaml_of_corpus(self.corpus()) is Some),
            r is Some ==> r->Some_0@ == yaml_of_corpus(self.corpus())->Some_0,
            r is Some ==> corpus_of_yaml(r->Some_0@) == Some(self.corpus()),
    {
        self.store.save()
    }
}

} // verus!

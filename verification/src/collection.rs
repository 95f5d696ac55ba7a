//! The file collection: an ordered sequence of managed filenames enumerated
//! from one source directory, with a cursor for navigation. Entries leave the
//! collection one at a time when a move completes; they are never added.

use vstd::prelude::*;
use crate::chars::views;
use crate::predicate::{is_managed_name, is_managed};

verus! {

/// Pairwise distinct elements.
pub open spec fn distinct_seq<A>(s: Seq<A>) -> bool {
    forall|i: int, j: int| 0 <= i < j < s.len() ==> s[i] != s[j]
}

/// The managed subsequence of a directory listing: the names that pass the
/// extension allow-list, in enumeration order.
pub open spec fn managed_of(names: Seq<Seq<char>>) -> Seq<Seq<char>> {
    names.filter(|n: Seq<char>| is_managed_name(n))
}

/// Why a collection could not be built.
#[derive(Debug, Clone, Copy, PartialEq, Eq, Structural)]
pub enum CollectionError {
    /// The directory holds no file whose name passes the allow-list. Fatal:
    /// there is nothing to operate on.
    EmptyDirectory,
    /// The directory itself could not be read. Never produced here; the
    /// embedding program maps a failed directory listing to this value.
    NotReadable,
}

/// Cursor position after one forward step: advances by one, saturating at
/// the last valid index.
pub open spec fn next_cursor(cursor: int, len: int) -> int {
    if cursor + 1 < len {
        cursor + 1
    } else {
        cursor
    }
}

/// Cursor position after one backward step: decreases by one, saturating at
/// zero.
pub open spec fn prev_cursor(cursor: int) -> int {
    if cursor == 0 {
        0
    } else {
        cursor - 1
    }
}

/// A sought position clamped to the valid range of a collection of `len`
/// entries (`len >= 1`).
pub open spec fn seek_cursor(pos: int, len: int) -> int {
    if pos >= len - 1 {
        len - 1
    } else {
        pos
    }
}

/// Cursor position after the entry at `cursor` leaves a collection of `len`
/// entries: unchanged while it still indexes the shrunk list, else its last
/// index (zero when the list empties).
pub open spec fn removed_cursor(cursor: int, len: int) -> int {
    if cursor + 1 < len {
        cursor
    } else if len >= 2 {
        len - 2
    } else {
        0
    }
}

/// Stepping forward and then backward returns to the original cursor,
/// provided the forward step was not already saturated at the end.
pub proof fn lemma_next_prev_round_trip(cursor: int, len: int)
    requires
        0 <= cursor,
        cursor + 1 < len,
    ensures
        prev_cursor(next_cursor(cursor, len)) == cursor,
{
}

/// An ordered collection of managed filenames with a cursor.
pub struct FileCollection {
    /// The source directory every entry was enumerated from.
    pub root: String,
    /// The managed filenames, in enumeration order.
    pub entries: Vec<String>,
    /// Index of the currently selected entry.
    pub cursor: usize,
    /// How many entries the collection held at construction; never changes.
    pub total_seen: usize,
}

impl FileCollection {
    /// The character sequences of the entries.
    pub open spec fn entry_views(self) -> Seq<Seq<char>> {
        views(self.entries@)
    }

    /// Well-formedness: the cursor indexes an entry whenever one exists, the
    /// entries are pairwise distinct, and the construction-time count is
    /// never undercut.
    pub open spec fn wf(self) -> bool {
        &&& self.entries@.len() > 0 ==> self.cursor < self.entries@.len()
        &&& distinct_seq(self.entry_views())
        &&& self.entries@.len() <= self.total_seen
    }

    /// The name of the currently selected entry.
    pub open spec fn current_name(self) -> Seq<char> {
        self.entry_views()[self.cursor as int]
    }

    /// Builds a collection from a directory listing: `names` are the regular
    /// files of `root` in enumeration order; the ones passing the extension
    /// allow-list become the entries. Fails when none passes: an empty
    /// collection is fatal, there is nothing to sort.
    pub fn new(root: String, names: Vec<String>) -> (r: Result<FileCollection, CollectionError>)
        requires
            distinct_seq(views(names@)),
        ensures
            (r is Ok) <==> managed_of(views(names@)).len() > 0,
            match r {
                Ok(c) => {
                    &&& c.wf()
                    &&& c.entry_views() == managed_of(views(names@))
                    &&& c.root@ == root@
                    &&& c.cursor == 0
                    &&& c.total_seen == c.entries@.len()
                },
                Err(e) => e == CollectionError::EmptyDirectory,
            },
    {
        let mut kept: Vec<String> = Vec::new();
        let mut i: usize = 0;
        proof {
            assert(views(names@).take(0) =~= Seq::<Seq<char>>::empty());
            assert(managed_of(Seq::<Seq<char>>::empty()) =~~= Seq::<Seq<char>>::empty()) by {
                reveal(Seq::filter);
            }
        }
        while i < names.len()
            invariant
                i <= names@.len(),
                views(kept@) == managed_of(views(names@).take(i as int)),
            decreases names@.len() - i,
        {
            let keep = is_managed(names[i].as_str());
            proof {
                let vs = views(names@);
                lemma_filter_push(vs.take(i as int), vs[i as int], |n: Seq<char>| is_managed_name(n));
                assert(vs.take(i + 1) =~~= vs.take(i as int).push(vs[i as int]));
                if keep {
                    assert(views(kept@.push(names@[i as int])) =~~= managed_of(vs.take(i + 1)));
                } else {
                    assert(views(kept@) =~~= managed_of(vs.take(i + 1)));
                }
            }
            if keep {
                let name = names[i].clone();
                kept.push(name);
            }
            i = i + 1;
        }
        proof {
            assert(views(names@).take(names@.len() as int) =~~= views(names@));
            lemma_filter_distinct(views(names@), |n: Seq<char>| is_managed_name(n));
        }
        if kept.len() == 0 {
            return Err(CollectionError::EmptyDirectory);
        }
        let total = kept.len();
        Ok(FileCollection { root, entries: kept, cursor: 0, total_seen: total })
    }

    /// How many entries remain.
    pub fn len(&self) -> (r: usize)
        ensures
            r == self.entries@.len(),
    {
        self.entries.len()
    }

    /// How many entries the collection held when it was built.
    pub fn total_seen(&self) -> (r: usize)
        ensures
            r == self.total_seen,
    {
        self.total_seen
    }

    /// The selected entry: its index, its filename, and its full path under
    /// the root directory.
    pub fn current(&self) -> (r: (usize, String, String))
        requires
            self.wf(),
            self.entries@.len() > 0,
        ensures
            r.0 == self.cursor,
            r.1@ == self.current_name(),
            r.2@ == full_path_of(self.root@, self.current_name()),
    {
        let name = self.entries[self.cursor].clone();
        let mut path = self.root.clone();
        path.append("/");
        path.append(name.as_str());
        proof {
            reveal_strlit("/");
            assert("/"@ =~= seq!['/']);
        }
        (self.cursor, name, path)
    }

    /// Advances the cursor by one, saturating at the last entry.
    pub fn next(&mut self)
        requires
            old(self).wf(),
            old(self).entries@.len() > 0,
        ensures
            final(self).wf(),
            final(self).cursor == next_cursor(old(self).cursor as int, old(self).entries@.len() as int),
            final(self).entries == old(self).entries,
            final(self).root == old(self).root,
            final(self).total_seen == old(self).total_seen,
    {
        if self.cursor + 1 < self.entries.len() {
            self.cursor = self.cursor + 1;
        }
    }

    /// Moves the cursor back by one, saturating at the first entry.
    pub fn prev(&mut self)
        requires
            old(self).wf(),
            old(self).entries@.len() > 0,
        ensures
            final(self).wf(),
            final(self).cursor == prev_cursor(old(self).cursor as int),
            final(self).entries == old(self).entries,
            final(self).root == old(self).root,
            final(self).total_seen == old(self).total_seen,
    {
        if self.cursor > 0 {
            self.cursor = self.cursor - 1;
        }
    }

    /// Sets the cursor to `pos`, clamped to the valid range.
    pub fn seek(&mut self, pos: usize)
        requires
            old(self).wf(),
            old(self).entries@.len() > 0,
        ensures
            final(self).wf(),
            final(self).cursor == seek_cursor(pos as int, old(self).entries@.len() as int),
            final(self).entries == old(self).entries,
            final(self).root == old(self).root,
            final(self).total_seen == old(self).total_seen,
    {
        let max = self.entries.len() - 1;
        self.cursor = if pos >= max {
            max
        } else {
            pos
        };
    }
}

/// The full path of an entry under the root directory.
pub open spec fn full_path_of(root: Seq<char>, name: Seq<char>) -> Seq<char> {
    root + seq!['/'] + name
}

/// A source filename made safe for its destination: every space becomes an
/// underscore.
pub open spec fn sanitized(name: Seq<char>) -> Seq<char> {
    name.map(|_i: int, c: char| if c == ' ' { '_' } else { c })
}

/// A composed name with every trailing separator token stripped.
pub open spec fn trimmed(s: Seq<char>) -> Seq<char>
    decreases s.len(),
{
    if s.len() >= 2 && s[s.len() - 1] == '-' && s[s.len() - 2] == '-' {
        trimmed(s.take(s.len() - 2))
    } else {
        s
    }
}

/// The destination path of a move: under `output/<category>/` of the root,
/// named `<trimmed new name>__<sanitized source name>`.
pub open spec fn dest_path_spec(
    root: Seq<char>,
    category: Seq<char>,
    new_name: Seq<char>,
    source_name: Seq<char>,
) -> Seq<char> {
    root + seq!['/', 'o', 'u', 't', 'p', 'u', 't', '/'] + category + seq!['/'] + trimmed(new_name)
        + seq!['_', '_'] + sanitized(source_name)
}

/// How the embedding program fared with the two file-system steps of a move:
/// copying the source to its destination, then deleting the source.
#[derive(Debug, Clone, Copy, PartialEq, Eq, Structural)]
pub enum MoveOutcome {
    /// The copy failed; nothing on disk changed.
    CopyFailed,
    /// The copy succeeded but the source could not be deleted: the file now
    /// exists in both places.
    SourceRemained,
    /// Copy and delete both succeeded.
    Completed,
}

/// Why a move failed.
#[derive(Debug, Clone, Copy, PartialEq, Eq, Structural)]
pub enum MoveError {
    /// The copy failed. The collection and the source file are untouched;
    /// the caller may retry.
    CopyFailed,
    /// The file was copied but the source was not deleted: a duplicate now
    /// exists. Not retryable; the entry still leaves the collection, since
    /// the file did reach its destination.
    SourceNotRemoved,
}

/// The two paths of a planned move.
pub struct MovePlan {
    /// Full path of the current entry under the root.
    pub source: String,
    /// Full path the file is to be copied to.
    pub dest: String,
}

/// Sanitizes a filename: every space becomes an underscore.
fn sanitize(name: &str) -> (r: String)
    ensures
        r@ == sanitized(name@),
{
    let n = name.unicode_len();
    let mut r = String::new();
    let mut i: usize = 0;
    while i < n
        invariant
            n == name@.len(),
            i <= n,
            r@ == sanitized(name@.take(i as int)),
        decreases n - i,
    {
        let c = name.get_char(i);
        if c == ' ' {
            r.append("_");
        } else {
            r.append(name.substring_char(i, i + 1));
        }
        proof {
            reveal_strlit("_");
            assert("_"@ =~= seq!['_']);
            assert(name@.subrange(i as int, i + 1) =~= seq![name@[i as int]]);
            assert(r@ =~= sanitized(name@.take(i + 1)));
        }
        i = i + 1;
    }
    proof {
        assert(name@.take(n as int) =~= name@);
    }
    r
}

/// Length of `s` once every trailing separator token is stripped.
fn trim_len(s: &str) -> (k: usize)
    ensures
        k <= s@.len(),
        trimmed(s@) == s@.take(k as int),
{
    let n = s.unicode_len();
    let mut k: usize = n;
    proof {
        assert(s@.take(n as int) =~= s@);
    }
    loop
        invariant
            n == s@.len(),
            k <= n,
            trimmed(s@) == trimmed(s@.take(k as int)),
        decreases k,
    {
        if k < 2 {
            proof {
                assert(trimmed(s@.take(k as int)) == s@.take(k as int));
            }
            return k;
        }
        let c1 = s.get_char(k - 1);
        let c2 = s.get_char(k - 2);
        if !(c1 == '-' && c2 == '-') {
            proof {
                let t = s@.take(k as int);
                assert(t[t.len() - 1] == s@[k - 1]);
                assert(t[t.len() - 2] == s@[k - 2]);
                assert(trimmed(t) == t);
            }
            return k;
        }
        proof {
            let t = s@.take(k as int);
            assert(t[t.len() - 1] == '-' && t[t.len() - 2] == '-');
            assert(trimmed(t) == trimmed(t.take(t.len() - 2)));
            assert(t.take(t.len() - 2) =~= s@.take(k - 2));
        }
        k = k - 2;
    }
}

/// Strips every trailing separator token from a composed name.
fn trim_separators(s: &str) -> (r: String)
    ensures
        r@ == trimmed(s@),
{
    let k = trim_len(s);
    s.substring_char(0, k).to_owned()
}

impl FileCollection {
    /// Plans the move of the current entry into `category` under the
    /// composed name `new_name`: computes the source path and the
    /// destination path. The embedding program copies the file to the
    /// destination and deletes the source, then reports what happened to
    /// `commit_move`.
    pub fn plan_move(&self, category: &str, new_name: &str) -> (p: MovePlan)
        requires
            self.wf(),
            self.entries@.len() > 0,
        ensures
            p.source@ == full_path_of(self.root@, self.current_name()),
            p.dest@ == dest_path_spec(self.root@, category@, new_name@, self.current_name()),
    {
        let name = self.entries[self.cursor].clone();
        let mut source = self.root.clone();
        source.append("/");
        source.append(name.as_str());
        let mut dest = self.root.clone();
        dest.append("/output/");
        dest.append(category);
        dest.append("/");
        let trimmed_name = trim_separators(new_name);
        dest.append(trimmed_name.as_str());
        dest.append("__");
        let safe = sanitize(name.as_str());
        dest.append(safe.as_str());
        proof {
            reveal_strlit("/");
            reveal_strlit("/output/");
            reveal_strlit("__");
            assert("/"@ =~= seq!['/']);
            assert("/output/"@ =~= seq!['/', 'o', 'u', 't', 'p', 'u', 't', '/']);
            assert("__"@ =~= seq!['_', '_']);
        }
        MovePlan { source, dest }
    }

    /// Applies the reported outcome of a planned move to the collection.
    /// When the file reached its destination (even if the source then could
    /// not be deleted), the entry leaves the collection and the cursor is
    /// re-clamped; a failed copy leaves everything untouched.
    pub fn commit_move(&mut self, outcome: MoveOutcome) -> (r: Result<(), MoveError>)
        requires
            old(self).wf(),
            old(self).entries@.len() > 0,
        ensures
            final(self).wf(),
            final(self).root == old(self).root,
            final(self).total_seen == old(self).total_seen,
            match outcome {
                MoveOutcome::CopyFailed => {
                    &&& r == Err::<(), MoveError>(MoveError::CopyFailed)
                    &&& *final(self) == *old(self)
                },
                MoveOutcome::SourceRemained => {
                    &&& r == Err::<(), MoveError>(MoveError::SourceNotRemoved)
                    &&& final(self).entry_views() == old(self).entry_views().remove(
                        old(self).cursor as int,
                    )
                    &&& final(self).cursor == removed_cursor(
                        old(self).cursor as int,
                        old(self).entries@.len() as int,
                    )
                    &&& !final(self).entry_views().contains(old(self).current_name())
                },
                MoveOutcome::Completed => {
                    &&& r == Ok::<(), MoveError>(())
                    &&& final(self).entry_views() == old(self).entry_views().remove(
                        old(self).cursor as int,
                    )
                    &&& final(self).cursor == removed_cursor(
                        old(self).cursor as int,
                        old(self).entries@.len() as int,
                    )
                    &&& !final(self).entry_views().contains(old(self).current_name())
                },
            },
    {
        match outcome {
            MoveOutcome::CopyFailed => Err(MoveError::CopyFailed),
            _ => {
                self.remove_current();
                if matches!(outcome, MoveOutcome::Completed) {
                    Ok(())
                } else {
                    Err(MoveError::SourceNotRemoved)
                }
            },
        }
    }

    /// Removes the current entry and re-clamps the cursor.
    fn remove_current(&mut self)
        requires
            old(self).wf(),
            old(self).entries@.len() > 0,
        ensures
            final(self).wf(),
            final(self).root == old(self).root,
            final(self).total_seen == old(self).total_seen,
            final(self).entry_views() == old(self).entry_views().remove(old(self).cursor as int),
            final(self).cursor == removed_cursor(
                old(self).cursor as int,
                old(self).entries@.len() as int,
            ),
            !final(self).entry_views().contains(old(self).current_name()),
    {
        let ghost pre = *self;
        self.entries.remove(self.cursor);
        if self.cursor >= self.entries.len() {
            self.cursor = if self.entries.len() > 0 {
                self.entries.len() - 1
            } else {
                0
            };
        }
        proof {
            let c = pre.cursor as int;
            let old_views = pre.entry_views();
            assert(self.entry_views() =~~= old_views.remove(c));
            assert(distinct_seq(self.entry_views())) by {
                assert forall|i: int, j: int|
                    0 <= i < j < old_views.remove(c).len() implies old_views.remove(c)[i]
                    != old_views.remove(c)[j] by {
                    let ri = if i < c { i } else { i + 1 };
                    let rj = if j < c { j } else { j + 1 };
                    assert(old_views.remove(c)[i] == old_views[ri]);
                    assert(old_views.remove(c)[j] == old_views[rj]);
                }
            }
            assert(!self.entry_views().contains(pre.current_name())) by {
                if self.entry_views().contains(pre.current_name()) {
                    let k = choose|k: int|
                        0 <= k < old_views.remove(c).len() && old_views.remove(c)[k]
                            == pre.current_name();
                    let rk = if k < c { k } else { k + 1 };
                    assert(old_views.remove(c)[k] == old_views[rk]);
                    assert(old_views[rk] == old_views[c] && rk != c);
                    assert(false);
                }
            }
        }
    }
}

/// Filtering a pushed element appends it exactly when it satisfies the
/// predicate.
proof fn lemma_filter_push<A>(s: Seq<A>, x: A, pred: spec_fn(A) -> bool)
    ensures
        s.push(x).filter(pred) == if pred(x) {
            s.filter(pred).push(x)
        } else {
            s.filter(pred)
        },
{
    reveal(Seq::filter);
    assert(s.push(x).drop_last() =~= s);
    assert(s.push(x).last() == x);
}

/// Filtering preserves pairwise distinctness.
proof fn lemma_filter_distinct<A>(s: Seq<A>, pred: spec_fn(A) -> bool)
    requires
        distinct_seq(s),
    ensures
        distinct_seq(s.filter(pred)),
    decreases s.len(),
{
    reveal(Seq::filter);
    if s.len() > 0 {
        let d = s.drop_last();
        assert(forall|k: int| 0 <= k < d.len() ==> d[k] == s[k]);
        lemma_filter_distinct(d, pred);
        if pred(s.last()) {
            let f = d.filter(pred);
            assert forall|i: int, j: int|
                0 <= i < j < f.push(s.last()).len() implies f.push(s.last())[i] != f.push(
                s.last(),
            )[j] by {
                if j == f.len() {
                    // the pushed element is the last of s, absent from d and
                    // so from d's filtered subsequence
                    if f.push(s.last())[i] == s.last() {
                        d.lemma_filter_contains_rev(pred, f[i]);
                        let k = choose|k: int| 0 <= k < d.len() && d[k] == f[i];
                        assert(s[k] == s[s.len() - 1]);
                        assert(false);
                    }
                }
            }
        }
    }
}

} // verus!

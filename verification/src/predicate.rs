//! The file predicate: a directory entry is managed by the collection when
//! its name has an extension (the text after the last `.`) that is, after
//! case folding, one of `png`, `jpg`, `jpeg`, `webp`.

use vstd::prelude::*;
use crate::chars::{fold_seq, fold_char_exec};

verus! {

/// Index of the last `.` in `s`, or -1 when there is none.
pub open spec fn last_dot(s: Seq<char>) -> int
    decreases s.len(),
{
    if s.len() == 0 {
        -1
    } else if s.last() == '.' {
        s.len() - 1
    } else {
        last_dot(s.drop_last())
    }
}

/// The extension of a filename: the text after the last `.`, or `None` when
/// the name holds no `.` at all.
pub open spec fn extension_of(s: Seq<char>) -> Option<Seq<char>> {
    if last_dot(s) >= 0 {
        Some(s.skip(last_dot(s) + 1))
    } else {
        None
    }
}

/// Does a case-folded extension stand in the allow-list?
pub open spec fn allowed_extension(e: Seq<char>) -> bool {
    ||| e == seq!['p', 'n', 'g']
    ||| e == seq!['j', 'p', 'g']
    ||| e == seq!['j', 'p', 'e', 'g']
    ||| e == seq!['w', 'e', 'b', 'p']
}

/// A filename is managed when it has an extension whose case-folded form is
/// in the allow-list; names without an extension are never managed.
pub open spec fn is_managed_name(s: Seq<char>) -> bool {
    match extension_of(s) {
        Some(e) => allowed_extension(fold_seq(e)),
        None => false,
    }
}

/// `last_dot` looks only at the part of `s` at or after any position `i`
/// that is itself past every dot-free tail.
proof fn lemma_last_dot_take(s: Seq<char>, i: int)
    requires
        0 <= i <= s.len(),
        forall|j: int| i <= j < s.len() ==> s[j] != '.',
    ensures
        last_dot(s) == last_dot(s.take(i)),
    decreases s.len() - i,
{
    if i < s.len() {
        assert(s.take(s.len() as int - 1) =~= s.drop_last());
        lemma_last_dot_take(s.drop_last(), i);
        assert(s.drop_last().take(i) =~= s.take(i));
    } else {
        assert(s.take(i) =~= s);
    }
}

/// Position just after the last `.` of `name`, or `None` when it has none.
fn find_after_last_dot(name: &str) -> (r: Option<usize>)
    ensures
        match r {
            Some(i) => 1 <= i <= name@.len() && last_dot(name@) == i - 1,
            None => last_dot(name@) == -1,
        },
{
    let n = name.unicode_len();
    let mut i: usize = n;
    while i > 0
        invariant
            n == name@.len(),
            0 <= i <= n,
            forall|j: int| i <= j < n ==> name@[j] != '.',
        decreases i,
    {
        let c = name.get_char(i - 1);
        if c == '.' {
            proof {
                lemma_last_dot_take(name@, i as int);
                assert(name@.take(i as int).last() == '.');
                lemma_last_dot_at(name@.take(i as int));
            }
            return Some(i);
        }
        i = i - 1;
    }
    proof {
        lemma_last_dot_take(name@, 0);
        assert(name@.take(0).len() == 0);
    }
    None
}

/// Decides whether a filename is managed by the collection.
pub fn is_managed(name: &str) -> (r: bool)
    ensures
        r == is_managed_name(name@),
{
    let n = name.unicode_len();
    let i = match find_after_last_dot(name) {
        Some(i) => i,
        None => {
            return false;
        },
    };
    let ext_len = n - i;
    if ext_len != 3 && ext_len != 4 {
        proof {
            let e = fold_seq(name@.skip(i as int));
            assert(e.len() == n - i);
            assert(!allowed_extension(e));
        }
        return false;
    }
    let mut e: Vec<char> = Vec::new();
    let mut k: usize = i;
    while k < n
        invariant
            n == name@.len(),
            i <= k <= n,
            e@ == fold_seq(name@.skip(i as int)).take(k - i),
        decreases n - k,
    {
        e.push(fold_char_exec(name.get_char(k)));
        proof {
            assert(e@ =~= fold_seq(name@.skip(i as int)).take(k + 1 - i));
        }
        k = k + 1;
    }
    proof {
        assert(e@ =~= fold_seq(name@.skip(i as int)));
    }
    let r = if ext_len == 3 {
        (e[0] == 'p' && e[1] == 'n' && e[2] == 'g') || (e[0] == 'j' && e[1] == 'p' && e[2] == 'g')
    } else {
        (e[0] == 'j' && e[1] == 'p' && e[2] == 'e' && e[3] == 'g') || (e[0] == 'w' && e[1] == 'e'
            && e[2] == 'b' && e[3] == 'p')
    };
    proof {
        let ext = fold_seq(name@.skip(i as int));
        if r {
            if ext_len == 3 {
                if e[0] == 'p' {
                    assert(ext =~= seq!['p', 'n', 'g']);
                } else {
                    assert(ext =~= seq!['j', 'p', 'g']);
                }
            } else {
                if e[0] == 'j' {
                    assert(ext =~= seq!['j', 'p', 'e', 'g']);
                } else {
                    assert(ext =~= seq!['w', 'e', 'b', 'p']);
                }
            }
        } else {
            assert(!allowed_extension(ext)) by {
                if allowed_extension(ext) {
                    assert(false);
                }
            }
        }
    }
    r
}

/// When a sequence's last character is `.`, that is its last dot.
proof fn lemma_last_dot_at(s: Seq<char>)
    requires
        s.len() > 0,
        s.last() == '.',
    ensures
        last_dot(s) == s.len() - 1,
{
}

} // verus!

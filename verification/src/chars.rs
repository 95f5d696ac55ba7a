//! Character-level helpers: ASCII case folding, used to make both the
//! extension allow-list and the fuzzy matcher case-insensitive.

use vstd::prelude::*;

verus! {

/// ASCII case folding of a single character: uppercase letters map to their
/// lowercase counterparts, every other character is unchanged.
pub open spec fn fold_char(c: char) -> char {
    if 'A' <= c && c <= 'Z' {
        (((c as u32) + 32) as u8) as char
    } else {
        c
    }
}

/// ASCII case folding of a character sequence.
pub open spec fn fold_seq(s: Seq<char>) -> Seq<char> {
    s.map(|_i: int, c: char| fold_char(c))
}

/// The character sequences of a sequence of strings.
pub open spec fn views(v: Seq<String>) -> Seq<Seq<char>> {
    v.map_values(|s: String| s@)
}

/// Executable ASCII case folding of one character.
pub fn fold_char_exec(c: char) -> (r: char)
    ensures
        r == fold_char(c),
{
    let u = c as u32;
    if 65 <= u && u <= 90 {
        ((u + 32) as u8) as char
    } else {
        c
    }
}

/// Folds a string into the sequence of its case-folded characters.
pub fn fold_chars(s: &str) -> (r: Vec<char>)
    ensures
        r@ == fold_seq(s@),
{
    let n = s.unicode_len();
    let mut r: Vec<char> = Vec::new();
    let mut i: usize = 0;
    while i < n
        invariant
            n == s@.len(),
            i <= n,
            r@ == fold_seq(s@.take(i as int)),
        decreases n - i,
    {
        let c = s.get_char(i);
        r.push(fold_char_exec(c));
        proof {
            assert(r@ =~= fold_seq(s@.take(i + 1)));
        }
        i = i + 1;
    }
    proof {
        assert(s@.take(n as int) =~= s@);
    }
    r
}

} // verus!

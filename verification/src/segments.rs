//! The name segmenter: a composed filename is an ordered list of tag
//! segments joined by the separator token `--`. Splitting discards empty
//! pieces; joining appends a trailing separator after every segment, so the
//! next typed character starts a fresh segment.

use vstd::prelude::*;
use crate::chars::views;

verus! {

/// The separator token, as a character sequence.
pub open spec fn sep() -> Seq<char> {
    seq!['-', '-']
}

/// Splitting on the separator, leftmost matches first, empty pieces kept:
/// the splitting `str::split` performs.
pub open spec fn split_spec(s: Seq<char>) -> Seq<Seq<char>>
    decreases s.len(),
{
    if s.len() >= 2 && s[0] == '-' && s[1] == '-' {
        seq![Seq::<char>::empty()] + split_spec(s.skip(2))
    } else if s.len() >= 1 {
        let r = split_spec(s.skip(1));
        seq![seq![s[0]] + r[0]] + r.skip(1)
    } else {
        seq![Seq::<char>::empty()]
    }
}

/// The segments of a composed name: the split pieces, empty ones discarded.
pub open spec fn segments_spec(s: Seq<char>) -> Seq<Seq<char>> {
    split_spec(s).filter(|p: Seq<char>| p.len() > 0)
}

/// Joining segments: every segment is followed by one separator token.
pub open spec fn join_spec(ps: Seq<Seq<char>>) -> Seq<char>
    decreases ps.len(),
{
    if ps.len() == 0 {
        Seq::<char>::empty()
    } else {
        ps[0] + sep() + join_spec(ps.skip(1))
    }
}

/// No occurrence of the separator token inside `p`.
pub open spec fn sep_free(p: Seq<char>) -> bool {
    forall|i: int| 0 <= i < p.len() - 1 ==> !((#[trigger] p[i]) == '-' && p[i + 1] == '-')
}

/// Does `p` end with a dash? A segment ending with a dash would merge with
/// the separator that joining appends after it.
pub open spec fn ends_dash(p: Seq<char>) -> bool {
    p.len() > 0 && p.last() == '-'
}

/// Splitting always yields at least one piece.
proof fn lemma_split_nonempty(s: Seq<char>)
    ensures
        split_spec(s).len() >= 1,
    decreases s.len(),
{
    if s.len() >= 2 && s[0] == '-' && s[1] == '-' {
        lemma_split_nonempty(s.skip(2));
    } else if s.len() >= 1 {
        lemma_split_nonempty(s.skip(1));
    }
}

/// A nonempty first piece starts with the first character of the input.
proof fn lemma_split_first_char(s: Seq<char>)
    ensures
        split_spec(s).len() >= 1,
        split_spec(s)[0].len() > 0 ==> s.len() > 0 && split_spec(s)[0][0] == s[0],
    decreases s.len(),
{
    lemma_split_nonempty(s);
    if s.len() >= 2 && s[0] == '-' && s[1] == '-' {
    } else if s.len() >= 1 {
        lemma_split_first_char(s.skip(1));
    }
}

/// No split piece holds an occurrence of the separator token.
proof fn lemma_split_sep_free(s: Seq<char>)
    ensures
        forall|k: int|
            0 <= k < split_spec(s).len() ==> sep_free(#[trigger] split_spec(s)[k]),
    decreases s.len(),
{
    lemma_split_nonempty(s);
    if s.len() >= 2 && s[0] == '-' && s[1] == '-' {
        lemma_split_sep_free(s.skip(2));
        assert forall|k: int| 0 <= k < split_spec(s).len() implies sep_free(
            #[trigger] split_spec(s)[k],
        ) by {
            if k >= 1 {
                assert(split_spec(s)[k] == split_spec(s.skip(2))[k - 1]);
            }
        }
    } else if s.len() >= 1 {
        let t = s.skip(1);
        let r = split_spec(t);
        lemma_split_sep_free(t);
        lemma_split_first_char(t);
        assert forall|k: int| 0 <= k < split_spec(s).len() implies sep_free(
            #[trigger] split_spec(s)[k],
        ) by {
            if k == 0 {
                let p = seq![s[0]] + r[0];
                assert(sep_free(r[0]));
                assert forall|i: int| 0 <= i < p.len() - 1 implies !((#[trigger] p[i]) == '-' && p[i
                    + 1] == '-') by {
                    if i == 0 {
                        // p[0] == s[0], p[1] == r[0][0] == t[0] == s[1]
                        if p.len() >= 2 {
                            assert(r[0][0] == t[0]);
                            assert(!(s.len() >= 2 && s[0] == '-' && s[1] == '-'));
                        }
                    } else {
                        assert(p[i] == r[0][i - 1] && p[i + 1] == r[0][i]);
                    }
                }
            } else {
                assert(split_spec(s)[k] == r.skip(1)[k - 1]);
                assert(r.skip(1)[k - 1] == r[k]);
            }
        }
    }
}

/// Splitting a text of the shape `piece ++ sep ++ rest` peels off exactly
/// that piece, when the piece is separator-free and does not end in a dash.
proof fn lemma_split_of_piece(p: Seq<char>, t: Seq<char>)
    requires
        sep_free(p),
        !ends_dash(p),
    ensures
        split_spec(p + sep() + t) =~~= seq![p] + split_spec(t),
    decreases p.len(),
{
    let s = p + sep() + t;
    lemma_split_nonempty(t);
    if p.len() == 0 {
        assert(s.len() >= 2 && s[0] == '-' && s[1] == '-');
        assert(s.skip(2) =~= t);
        assert(split_spec(s) == seq![Seq::<char>::empty()] + split_spec(t));
        assert(seq![Seq::<char>::empty()][0] =~= p);
        assert(seq![Seq::<char>::empty()] =~~= seq![p]);
    } else {
        // the head of s is p[0], and (s[0], s[1]) is not the separator
        assert(s[0] == p[0]);
        if p.len() == 1 {
            assert(p.last() == p[0]);
            assert(s[0] != '-');
        } else {
            assert(s[1] == p[1]);
            assert(!(p[0] == '-' && p[1] == '-'));
        }
        assert(!(s.len() >= 2 && s[0] == '-' && s[1] == '-'));
        let q = p.skip(1);
        assert(sep_free(q)) by {
            assert forall|i: int| 0 <= i < q.len() - 1 implies !((#[trigger] q[i]) == '-' && q[i + 1]
                == '-') by {
                assert(q[i] == p[i + 1] && q[i + 1] == p[i + 2]);
            }
        }
        assert(!ends_dash(q)) by {
            if q.len() > 0 {
                assert(q.last() == p.last());
            }
        }
        lemma_split_of_piece(q, t);
        assert(s.skip(1) =~= q + sep() + t);
        let r = split_spec(s.skip(1));
        assert(r =~~= seq![q] + split_spec(t));
        assert(r[0] == q);
        assert(r.skip(1) =~~= split_spec(t));
        assert(split_spec(s) == seq![seq![s[0]] + r[0]] + r.skip(1));
        assert(seq![s[0]] + r[0] =~= p);
        assert(split_spec(s) =~~= seq![p] + split_spec(t));
    }
}

/// Splitting the join of well-formed segments recovers them, with one empty
/// piece left by the trailing separator.
proof fn lemma_split_join(ps: Seq<Seq<char>>)
    requires
        forall|k: int|
            0 <= k < ps.len() ==> sep_free(#[trigger] ps[k]) && !ends_dash(ps[k]),
    ensures
        split_spec(join_spec(ps)) =~~= ps + seq![Seq::<char>::empty()],
    decreases ps.len(),
{
    if ps.len() == 0 {
        assert(join_spec(ps) =~= Seq::<char>::empty());
    } else {
        let rest = ps.skip(1);
        assert(forall|k: int|
            0 <= k < rest.len() ==> sep_free(#[trigger] rest[k]) && !ends_dash(rest[k])) by {
            assert(forall|k: int| 0 <= k < rest.len() ==> rest[k] == ps[k + 1]);
        }
        lemma_split_join(rest);
        lemma_split_of_piece(ps[0], join_spec(rest));
        assert(split_spec(join_spec(ps)) =~~= seq![ps[0]] + (rest + seq![Seq::<char>::empty()]));
        assert(seq![ps[0]] + (rest + seq![Seq::<char>::empty()]) =~~= ps + seq![
            Seq::<char>::empty(),
        ]);
    }
}

/// Filtering keeps a sequence whose elements all satisfy the predicate.
proof fn lemma_filter_all<A>(s: Seq<A>, pred: spec_fn(A) -> bool)
    requires
        forall|k: int| 0 <= k < s.len() ==> pred(#[trigger] s[k]),
    ensures
        s.filter(pred) == s,
    decreases s.len(),
{
    reveal(Seq::filter);
    if s.len() > 0 {
        assert(forall|k: int| 0 <= k < s.len() - 1 ==> s.drop_last()[k] == s[k]);
        lemma_filter_all(s.drop_last(), pred);
        assert(s.drop_last().push(s.last()) =~= s);
    }
}

/// Filtering a singleton.
proof fn lemma_filter_singleton<A>(x: A, pred: spec_fn(A) -> bool)
    ensures
        seq![x].filter(pred) == if pred(x) {
            seq![x]
        } else {
            Seq::<A>::empty()
        },
{
    reveal(Seq::filter);
    assert(seq![x].drop_last() =~= Seq::<A>::empty());
    assert(Seq::<A>::empty().filter(pred) =~= Seq::<A>::empty());
    if pred(x) {
        assert(Seq::<A>::empty().push(x) =~= seq![x]);
    }
}

/// The segments of a joined list of segments are that list again, provided
/// every segment is nonempty, separator-free, and does not end in a dash.
/// In particular the segments of `join(["a", "b"])` are `["a", "b"]`.
pub proof fn lemma_segments_of_join(ps: Seq<Seq<char>>)
    requires
        forall|k: int|
            0 <= k < ps.len() ==> (#[trigger] ps[k]).len() > 0 && sep_free(ps[k]) && !ends_dash(
                ps[k],
            ),
    ensures
        segments_spec(join_spec(ps)) == ps,
{
    let pred = |p: Seq<char>| p.len() > 0;
    lemma_split_join(ps);
    Seq::filter_distributes_over_add(ps, seq![Seq::<char>::empty()], pred);
    lemma_filter_all(ps, pred);
    lemma_filter_singleton(Seq::<char>::empty(), pred);
    assert(segments_spec(join_spec(ps)) =~~= ps);
}

/// Normalization is idempotent: segmenting, joining, and segmenting again
/// reproduces the segments unchanged. The law asks that no segment end in a
/// dash: such a trailing dash would merge with the separator that joining
/// appends (the segments of `"a-"` are `["a-"]`, but joining gives `"a---"`,
/// whose segments are `["a", "-"]`).
pub proof fn lemma_resegment(x: Seq<char>)
    requires
        forall|k: int| 0 <= k < segments_spec(x).len() ==> !ends_dash(#[trigger] segments_spec(x)[k]),
    ensures
        segments_spec(join_spec(segments_spec(x))) == segments_spec(x),
{
    let pred = |p: Seq<char>| p.len() > 0;
    let ps = segments_spec(x);
    lemma_split_sep_free(x);
    assert(forall|k: int| 0 <= k < ps.len() ==> (#[trigger] ps[k]).len() > 0 && sep_free(ps[k])
        && !ends_dash(ps[k])) by {
        assert forall|k: int| 0 <= k < ps.len() implies (#[trigger] ps[k]).len() > 0 && sep_free(
            ps[k],
        ) && !ends_dash(ps[k]) by {
            split_spec(x).lemma_filter_pred(pred, k);
            assert(split_spec(x).filter(pred).contains(ps[k]));
            split_spec(x).lemma_filter_contains_rev(pred, ps[k]);
            let j = choose|j: int|
                0 <= j < split_spec(x).len() && split_spec(x)[j] == ps[k];
            assert(sep_free(split_spec(x)[j]));
        }
    }
    lemma_segments_of_join(ps);
}

/// Joining distributes over concatenation of segment lists.
proof fn lemma_join_concat(a: Seq<Seq<char>>, b: Seq<Seq<char>>)
    ensures
        join_spec(a + b) == join_spec(a) + join_spec(b),
    decreases a.len(),
{
    if a.len() == 0 {
        assert(a + b =~~= b);
        assert(join_spec(a) + join_spec(b) =~= join_spec(b));
    } else {
        assert((a + b).skip(1) =~~= a.skip(1) + b);
        lemma_join_concat(a.skip(1), b);
        assert((a + b)[0] == a[0]);
        assert(join_spec(a + b) =~= a[0] + sep() + (join_spec(a.skip(1)) + join_spec(b)));
        assert(join_spec(a) + join_spec(b) =~= a[0] + sep() + (join_spec(a.skip(1)) + join_spec(
            b,
        )));
    }
}

/// The separator token.
pub const SEPARATOR: &'static str = "--";

/// Splits a composed name on the separator token, discarding empty pieces
/// and preserving the order of the rest.
pub fn get_segments(filename: &str) -> (r: Vec<String>)
    ensures
        views(r@) == segments_spec(filename@),
{
    let n = filename.unicode_len();
    let mut r: Vec<String> = Vec::new();
    let ghost mut done: Seq<Seq<char>> = Seq::empty();
    let mut start: usize = 0;
    let mut i: usize = 0;
    proof {
        lemma_split_nonempty(filename@);
        assert(filename@.skip(0) =~= filename@);
        assert(done + (seq![filename@.subrange(0, 0) + split_spec(filename@)[0]] + split_spec(
            filename@,
        ).skip(1)) =~~= split_spec(filename@));
    }
    while i < n
        invariant
            n == filename@.len(),
            0 <= start <= i <= n,
            split_spec(filename@) =~~= done + (seq![
                filename@.subrange(start as int, i as int) + split_spec(filename@.skip(i as int))[0],
            ] + split_spec(filename@.skip(i as int)).skip(1)),
            views(r@) == done.filter(|p: Seq<char>| p.len() > 0),
        decreases n - i,
    {
        let ghost pre = filename@.skip(i as int);
        proof {
            lemma_split_nonempty(pre);
        }
        let sep_here = i + 1 < n && filename.get_char(i) == '-' && filename.get_char(i + 1) == '-';
        if sep_here {
            let piece = filename.substring_char(start, i).to_owned();
            proof {
                let post = filename@.skip(i + 2);
                lemma_split_nonempty(post);
                assert(pre.len() >= 2 && pre[0] == '-' && pre[1] == '-');
                assert(pre.skip(2) =~= post);
                assert(split_spec(pre) == seq![Seq::<char>::empty()] + split_spec(post));
                assert(split_spec(pre)[0] =~= Seq::<char>::empty());
                assert(split_spec(pre).skip(1) =~~= split_spec(post));
                let cur = filename@.subrange(start as int, i as int);
                assert(cur + split_spec(pre)[0] =~= cur);
                let done2 = done + seq![cur];
                assert(done + (seq![cur + split_spec(pre)[0]] + split_spec(pre).skip(1)) =~~= done2
                    + (seq![
                    filename@.subrange(i + 2, i + 2) + split_spec(post)[0],
                ] + split_spec(post).skip(1))) by {
                    assert(filename@.subrange(i + 2, i + 2) + split_spec(post)[0] =~= split_spec(
                        post,
                    )[0]);
                    assert(seq![split_spec(post)[0]] + split_spec(post).skip(1) =~~= split_spec(
                        post,
                    ));
                }
                Seq::filter_distributes_over_add(done, seq![cur], |p: Seq<char>| p.len() > 0);
                lemma_filter_singleton(cur, |p: Seq<char>| p.len() > 0);
                if piece@.len() > 0 {
                    assert(views(r@.push(piece)) =~~= done2.filter(|p: Seq<char>| p.len() > 0));
                } else {
                    assert(views(r@) =~~= done2.filter(|p: Seq<char>| p.len() > 0));
                }
                done = done2;
            }
            if piece.unicode_len() > 0 {
                r.push(piece);
            }
            start = i + 2;
            i = i + 2;
        } else {
            proof {
                let post = filename@.skip(i + 1);
                lemma_split_nonempty(post);
                assert(pre.len() >= 1);
                assert(!(pre.len() >= 2 && pre[0] == '-' && pre[1] == '-')) by {
                    if pre.len() >= 2 {
                        assert(pre[0] == filename@[i as int]);
                        assert(pre[1] == filename@[i + 1]);
                    }
                }
                assert(pre.skip(1) =~= post);
                assert(split_spec(pre) == seq![seq![pre[0]] + split_spec(post)[0]] + split_spec(
                    post,
                ).skip(1));
                let cur = filename@.subrange(start as int, i as int);
                let cur2 = filename@.subrange(start as int, i + 1);
                assert(cur + (seq![pre[0]] + split_spec(post)[0]) =~= cur2 + split_spec(post)[0]);
                assert(split_spec(pre).skip(1) =~~= split_spec(post).skip(1));
                assert(done + (seq![cur + split_spec(pre)[0]] + split_spec(pre).skip(1)) =~~= done
                    + (seq![cur2 + split_spec(post)[0]] + split_spec(post).skip(1)));
            }
            i = i + 1;
        }
    }
    let piece = filename.substring_char(start, n).to_owned();
    proof {
        let pre = filename@.skip(n as int);
        assert(pre.len() == 0);
        assert(split_spec(pre) == seq![Seq::<char>::empty()]);
        let cur = filename@.subrange(start as int, n as int);
        assert(cur + split_spec(pre)[0] =~= cur);
        assert(split_spec(pre).skip(1) =~~= Seq::<Seq<char>>::empty());
        assert(split_spec(filename@) =~~= done + seq![cur]);
        Seq::filter_distributes_over_add(done, seq![cur], |p: Seq<char>| p.len() > 0);
        lemma_filter_singleton(cur, |p: Seq<char>| p.len() > 0);
        if piece@.len() > 0 {
            assert(views(r@.push(piece)) =~~= segments_spec(filename@));
        } else {
            assert(views(r@) =~~= segments_spec(filename@));
        }
    }
    if piece.unicode_len() > 0 {
        r.push(piece);
    }
    r
}

/// Joins segments in order, appending the separator token after each one.
pub fn join_segments(parts: &Vec<String>) -> (r: String)
    ensures
        r@ == join_spec(views(parts@)),
{
    let mut r = String::new();
    let mut i: usize = 0;
    while i < parts.len()
        invariant
            i <= parts@.len(),
            r@ == join_spec(views(parts@).take(i as int)),
        decreases parts@.len() - i,
    {
        r.append(parts[i].as_str());
        r.append(SEPARATOR);
        proof {
            reveal_strlit("--");
            assert(SEPARATOR@ =~= sep());
            let vs = views(parts@);
            lemma_join_concat(vs.take(i as int), seq![vs[i as int]]);
            assert(vs.take(i + 1) =~~= vs.take(i as int) + seq![vs[i as int]]);
            assert(join_spec(seq![vs[i as int]]) =~= vs[i as int] + sep()) by {
                reveal_with_fuel(join_spec, 2);
                assert(seq![vs[i as int]].skip(1) =~~= Seq::<Seq<char>>::empty());
            }
            assert(r@ =~= join_spec(vs.take(i + 1)));
        }
        i = i + 1;
    }
    proof {
        assert(views(parts@).take(parts@.len() as int) =~~= views(parts@));
    }
    r
}

} // verus!

//! Dotted paths: `a.b.c` names `c` inside `b` inside `a`.
use vstd::prelude::*;
use vstd::string::*;

use crate::text::chars_of;

verus! {

/// Index of the first `.` at or after `i`, or the length of `p` when there is none.
pub open spec fn segment_end(p: Seq<char>, i: int) -> int
    decreases p.len() - i,
{
    if i >= p.len() {
        p.len() as int
    } else if p[i] == '.' {
        i
    } else {
        segment_end(p, i + 1)
    }
}

pub proof fn lemma_segment_end_bounds(p: Seq<char>, i: int)
    requires
        0 <= i <= p.len(),
    ensures
        i <= segment_end(p, i) <= p.len(),
        segment_end(p, i) < p.len() ==> p[segment_end(p, i)] == '.',
        forall|k: int| i <= k < segment_end(p, i) ==> p[k] != '.',
    decreases p.len() - i,
{
    if i < p.len() && p[i] != '.' {
        lemma_segment_end_bounds(p, i + 1);
    }
}

/// The `.`-separated segments of `p` that start at index `i`.
pub open spec fn segments_from(p: Seq<char>, i: int) -> Seq<Seq<char>>
    decreases p.len() - i,
    when 0 <= i <= p.len()
{
    proof {
        lemma_segment_end_bounds(p, i);
    }
    let j = segment_end(p, i);
    if j >= p.len() {
        seq![p.subrange(i, p.len() as int)]
    } else {
        seq![p.subrange(i, j)] + segments_from(p, j + 1)
    }
}

/// A path split on every `.`; an empty path is one empty segment, as is each
/// segment between two adjacent dots.
pub open spec fn path_segments(p: Seq<char>) -> Seq<Seq<char>> {
    segments_from(p, 0)
}

/// The text of each slice in `s`.
pub open spec fn texts_of(s: Seq<&str>) -> Seq<Seq<char>> {
    s.map_values(|x: &str| x@)
}

pub proof fn lemma_segments_nonempty(p: Seq<char>, i: int)
    requires
        0 <= i <= p.len(),
    ensures
        segments_from(p, i).len() >= 1,
    decreases p.len() - i,
{
    lemma_segment_end_bounds(p, i);
    let j = segment_end(p, i);
    if j < p.len() {
        lemma_segments_nonempty(p, j + 1);
    }
}

/// Splits `path` on `.` into its segments, in order.
pub fn split_path(path: &str) -> (r: Vec<&str>)
    ensures
        texts_of(r@) == path_segments(path@),
        r@.len() >= 1,
{
    let cs = chars_of(path);
    let mut r: Vec<&str> = Vec::new();
    let mut start: usize = 0;
    let mut j: usize = 0;
    while j < cs.len()
        invariant
            cs@ == path@,
            0 <= start <= j <= cs.len(),
            segment_end(path@, start as int) == segment_end(path@, j as int),
            texts_of(r@) + segments_from(path@, start as int) == path_segments(path@),
        decreases cs.len() - j,
    {
        if cs[j] == '.' {
            let seg = path.substring_char(start, j);
            proof {
                lemma_segment_end_bounds(path@, start as int);
                assert(texts_of(r@.push(seg)) =~= texts_of(r@).push(seg@));
                assert(texts_of(r@.push(seg)) + segments_from(path@, j + 1) =~= texts_of(r@)
                    + segments_from(path@, start as int));
            }
            r.push(seg);
            start = j + 1;
        }
        j += 1;
    }
    let last = path.substring_char(start, cs.len());
    proof {
        lemma_segment_end_bounds(path@, start as int);
        assert(texts_of(r@.push(last)) =~= texts_of(r@).push(last@));
        assert(texts_of(r@.push(last)) =~= texts_of(r@) + segments_from(path@, start as int));
    }
    r.push(last);
    r
}

} // verus!

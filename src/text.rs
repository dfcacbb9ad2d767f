//! Character-level helpers shared by the path resolver and the tokenizer.
use vstd::prelude::*;
use vstd::std_specs::iter::IteratorSpec;

verus! {

/// The characters of `s`, in order, one element per `char`.
pub fn chars_of(s: &str) -> (r: Vec<char>)
    ensures
        r@ == s@,
{
    let mut it = s.chars();
    let mut r: Vec<char> = Vec::new();
    loop
        invariant
            it.obeys_prophetic_iter_laws(),
            r@ + it.remaining() == s@,
        ensures
            r@ == s@,
        decreases s@.len() - r@.len(),
    {
        match it.next() {
            Some(c) => {
                r.push(c);
            },
            None => {
                assert(r@ + it.remaining() =~= r@);
                break;
            },
        }
    }
    r
}

/// The sets of characters that end a forward scan.
#[derive(Debug, Clone, Copy, PartialEq, Eq)]
pub enum Stop {
    /// The start of a directive.
    Dollar,
    /// The end of a directive's word: a space, a newline or a `$`.
    WordEnd,
    /// The end of a line.
    Newline,
    /// The end of a block header: a `:` or the end of the line.
    HeaderEnd,
}

pub open spec fn stops_at(k: Stop, c: char) -> bool {
    match k {
        Stop::Dollar => c == '$',
        Stop::WordEnd => c == ' ' || c == '\n' || c == '$',
        Stop::Newline => c == '\n',
        Stop::HeaderEnd => c == ':' || c == '\n',
    }
}

/// Index of the first character at or after `i` in `k`'s set, or the length of `s`.
pub open spec fn scan(s: Seq<char>, i: int, k: Stop) -> int
    decreases s.len() - i,
{
    if i >= s.len() {
        s.len() as int
    } else if stops_at(k, s[i]) {
        i
    } else {
        scan(s, i + 1, k)
    }
}

pub proof fn lemma_scan(s: Seq<char>, i: int, k: Stop)
    requires
        0 <= i <= s.len(),
    ensures
        i <= scan(s, i, k) <= s.len(),
        scan(s, i, k) < s.len() ==> stops_at(k, s[scan(s, i, k)]),
        forall|j: int| i <= j < scan(s, i, k) ==> !stops_at(k, #[trigger] s[j]),
    decreases s.len() - i,
{
    if i < s.len() && !stops_at(k, s[i]) {
        lemma_scan(s, i + 1, k);
    }
}

fn stop_matches(k: Stop, c: char) -> (r: bool)
    ensures
        r == stops_at(k, c),
{
    match k {
        Stop::Dollar => c == '$',
        Stop::WordEnd => c == ' ' || c == '\n' || c == '$',
        Stop::Newline => c == '\n',
        Stop::HeaderEnd => c == ':' || c == '\n',
    }
}

/// Index of the first character at or after `from` in `k`'s set, or the length.
pub fn scan_to(cs: &Vec<char>, from: usize, k: Stop) -> (r: usize)
    requires
        from <= cs@.len(),
    ensures
        r == scan(cs@, from as int, k),
{
    let mut i: usize = from;
    while i < cs.len()
        invariant
            from <= i <= cs@.len(),
            scan(cs@, from as int, k) == scan(cs@, i as int, k),
        decreases cs.len() - i,
    {
        if stop_matches(k, cs[i]) {
            return i;
        }
        i += 1;
    }
    i
}

/// Space, tab or carriage return: what trimming removes.
pub open spec fn is_blank(c: char) -> bool {
    c == ' ' || c == '\t' || c == '\r'
}

/// Index of the first non-blank character in `s[i..j]`, or `j`.
pub open spec fn skip_blanks(s: Seq<char>, i: int, j: int) -> int
    decreases j - i,
{
    if i >= j {
        j
    } else if is_blank(s[i]) {
        skip_blanks(s, i + 1, j)
    } else {
        i
    }
}

/// One past the last non-blank character in `s[i..j]`, or `i`.
pub open spec fn back_blanks(s: Seq<char>, i: int, j: int) -> int
    decreases j - i,
{
    if j <= i {
        i
    } else if is_blank(s[j - 1]) {
        back_blanks(s, i, j - 1)
    } else {
        j
    }
}

pub proof fn lemma_blanks(s: Seq<char>, i: int, j: int)
    requires
        0 <= i <= j <= s.len(),
    ensures
        i <= skip_blanks(s, i, j) <= j,
        i <= back_blanks(s, i, j) <= j,
    decreases j - i,
{
    if i < j {
        lemma_blanks(s, i + 1, j);
        lemma_blanks(s, i, j - 1);
    }
}

fn blank(c: char) -> (r: bool)
    ensures
        r == is_blank(c),
{
    c == ' ' || c == '\t' || c == '\r'
}

pub fn skip_blanks_in(cs: &Vec<char>, from: usize, to: usize) -> (r: usize)
    requires
        from <= to <= cs@.len(),
    ensures
        r == skip_blanks(cs@, from as int, to as int),
{
    let mut i: usize = from;
    while i < to
        invariant
            from <= i <= to <= cs@.len(),
            skip_blanks(cs@, from as int, to as int) == skip_blanks(cs@, i as int, to as int),
        decreases to - i,
    {
        if !blank(cs[i]) {
            return i;
        }
        i += 1;
    }
    i
}

pub fn back_blanks_in(cs: &Vec<char>, from: usize, to: usize) -> (r: usize)
    requires
        from <= to <= cs@.len(),
    ensures
        r == back_blanks(cs@, from as int, to as int),
{
    let mut j: usize = to;
    while j > from
        invariant
            from <= j <= to <= cs@.len(),
            back_blanks(cs@, from as int, to as int) == back_blanks(cs@, from as int, j as int),
        decreases j - from,
    {
        if !blank(cs[j - 1]) {
            return j;
        }
        j -= 1;
    }
    j
}

} // verus!

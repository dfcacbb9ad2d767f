//! Splits template text into text runs and directives.
//!
//! A directive starts with `$` and a word that runs up to the next space,
//! newline or `$`. `$if [!]path: body` and `$for name in path: body` open a
//! block; any other word is a variable. When the header line holds more after
//! the `:`, the body starts there (past one space) and ends at the end of that
//! line, or at the block's own `$end` when one follows. Otherwise the body is
//! the lines after the header up to the block's own `$end`. A block's own
//! `$end` is found by counting: each `$if` or `$for` met on the way opens one
//! more level, each `$end` closes one.
use vstd::prelude::*;
use vstd::string::*;
use vstd::utf8::encode_utf8;

use crate::text::{
    Stop, back_blanks, back_blanks_in, chars_of, is_blank, lemma_blanks, lemma_scan, scan,
    scan_to, skip_blanks, skip_blanks_in,
};

verus! {

/// One unit of template text.
#[derive(Debug, Copy, Clone, PartialEq, Eq)]
pub enum Token<'a> {
    /// Literal text, up to the next `$` or the end.
    Text(&'a str),
    /// `$path`: the value at `path` is written out.
    Variable(&'a str),
    /// `$if [!]variable: true_block`.
    If { not: bool, variable: &'a str, true_block: &'a str, false_block: &'a str },
    /// `$for name in variable: block`.
    For { name: &'a str, variable: &'a str, block: &'a str },
}

/// A malformed directive, with the byte offset of its `$` in the scanned text.
#[derive(Debug, Copy, Clone, PartialEq, Eq)]
pub enum Error {
    /// A block whose body needs an `$end` that never comes.
    NoEnd { offset: usize },
    /// An `$if` header without a `:` on its line.
    InvalidIfBlock { offset: usize },
    /// A `$for` header without a `:` on its line, or without ` in ` before it.
    InvalidForBlock { offset: usize },
}

/// The text of each part of a token.
pub enum TokenView {
    Text(Seq<char>),
    Variable(Seq<char>),
    If { not: bool, variable: Seq<char>, true_block: Seq<char>, false_block: Seq<char> },
    For { name: Seq<char>, variable: Seq<char>, block: Seq<char> },
}

impl<'a> View for Token<'a> {
    type V = TokenView;

    open spec fn view(&self) -> TokenView {
        match *self {
            Token::Text(t) => TokenView::Text(t@),
            Token::Variable(v) => TokenView::Variable(v@),
            Token::If { not, variable, true_block, false_block } => TokenView::If {
                not,
                variable: variable@,
                true_block: true_block@,
                false_block: false_block@,
            },
            Token::For { name, variable, block } => TokenView::For {
                name: name@,
                variable: variable@,
                block: block@,
            },
        }
    }
}

pub open spec fn word_if() -> Seq<char> {
    seq!['i', 'f']
}

pub open spec fn word_for() -> Seq<char> {
    seq!['f', 'o', 'r']
}

pub open spec fn word_end() -> Seq<char> {
    seq!['e', 'n', 'd']
}

/// The number of bytes that the first `p` characters of `s` take in UTF-8.
pub open spec fn byte_offset(s: Seq<char>, p: int) -> usize {
    encode_utf8(s.subrange(0, p)).len() as usize
}

/// The index of the `$end` that closes a block, scanning from `i` with `depth`
/// blocks open: each `$if` or `$for` opens one more, each `$end` closes one.
pub open spec fn find_end(s: Seq<char>, i: int, depth: nat) -> Option<int>
    decreases s.len() - i,
    when 0 <= i
{
    if i >= s.len() {
        None
    } else if s[i] == '$' {
        proof {
            lemma_scan(s, i + 1, Stop::WordEnd);
        }
        let e = scan(s, i + 1, Stop::WordEnd);
        let w = s.subrange(i + 1, e);
        if w == word_end() {
            if depth <= 1 {
                Some(i)
            } else {
                find_end(s, e, (depth - 1) as nat)
            }
        } else if w == word_if() || w == word_for() {
            find_end(s, e, depth + 1)
        } else {
            find_end(s, e, depth)
        }
    } else {
        find_end(s, i + 1, depth)
    }
}

/// Where scanning resumes after the `$end` at `t`: past one newline that follows it.
pub open spec fn after_end(s: Seq<char>, t: int) -> int {
    if t + 4 < s.len() && s[t + 4] == '\n' {
        t + 5
    } else {
        t + 4
    }
}

/// The body of a block whose header's `:` is just before `b0`, and where
/// scanning resumes after it; `None` when its `$end` is missing.
pub open spec fn block(s: Seq<char>, b0: int) -> Option<(Seq<char>, int)> {
    let le = scan(s, b0, Stop::Newline);
    if le == b0 || (le == b0 + 1 && s[b0] == ' ') {
        if le >= s.len() {
            None
        } else {
            match find_end(s, le + 1, 1) {
                Some(t) => Some((s.subrange(le + 1, t), after_end(s, t))),
                None => None,
            }
        }
    } else {
        let b = if s[b0] == ' ' {
            b0 + 1
        } else {
            b0
        };
        match find_end(s, b, 1) {
            Some(t) => {
                let t1 = if t > b && (s[t - 1] == ' ' || s[t - 1] == '\n') {
                    t - 1
                } else {
                    t
                };
                Some((s.subrange(b, t1), after_end(s, t)))
            },
            None => Some((s.subrange(b, le), le)),
        }
    }
}

/// The first index `k` in `[i, j - 4]` where ` in ` starts.
pub open spec fn find_in(s: Seq<char>, i: int, j: int) -> Option<int>
    decreases j - i,
{
    if i + 4 > j {
        None
    } else if s[i] == ' ' && s[i + 1] == 'i' && s[i + 2] == 'n' && s[i + 3] == ' ' {
        Some(i)
    } else {
        find_in(s, i + 1, j)
    }
}

/// `s[i..j]` without blanks at either end.
pub open spec fn trimmed(s: Seq<char>, i: int, j: int) -> Seq<char> {
    let a = skip_blanks(s, i, j);
    s.subrange(a, back_blanks(s, a, j))
}

/// The `$if` directive whose `$` is at `p` and whose word ends at `e`.
pub open spec fn if_directive(s: Seq<char>, p: int, e: int) -> (Result<TokenView, Error>, int) {
    let c = scan(s, e, Stop::HeaderEnd);
    if c >= s.len() || s[c] != ':' {
        (Err(Error::InvalidIfBlock { offset: byte_offset(s, p) }), s.len() as int)
    } else {
        let a = skip_blanks(s, e, c);
        let not = a < c && s[a] == '!';
        let variable = if not {
            trimmed(s, a + 1, c)
        } else {
            trimmed(s, a, c)
        };
        match block(s, c + 1) {
            Some((body, next)) => (
                Ok(
                    TokenView::If {
                        not,
                        variable,
                        true_block: body,
                        false_block: Seq::<char>::empty(),
                    },
                ),
                next,
            ),
            None => (Err(Error::NoEnd { offset: byte_offset(s, p) }), s.len() as int),
        }
    }
}

/// The `$for` directive whose `$` is at `p` and whose word ends at `e`.
pub open spec fn for_directive(s: Seq<char>, p: int, e: int) -> (Result<TokenView, Error>, int) {
    let c = scan(s, e, Stop::HeaderEnd);
    if c >= s.len() || s[c] != ':' {
        (Err(Error::InvalidForBlock { offset: byte_offset(s, p) }), s.len() as int)
    } else {
        match find_in(s, e, c) {
            None => (Err(Error::InvalidForBlock { offset: byte_offset(s, p) }), s.len() as int),
            Some(k) => match block(s, c + 1) {
                Some((body, next)) => (
                    Ok(
                        TokenView::For {
                            name: trimmed(s, e, k),
                            variable: trimmed(s, k + 4, c),
                            block: body,
                        },
                    ),
                    next,
                ),
                None => (Err(Error::NoEnd { offset: byte_offset(s, p) }), s.len() as int),
            },
        }
    }
}

/// The token that starts at `p` in `s`, and where the next one starts; `None`
/// at the end. After an error nothing more is read.
pub open spec fn step(s: Seq<char>, p: int) -> Option<(Result<TokenView, Error>, int)> {
    if p < 0 || p >= s.len() {
        None
    } else if s[p] != '$' {
        let q = scan(s, p, Stop::Dollar);
        Some((Ok(TokenView::Text(s.subrange(p, q))), q))
    } else {
        let e = scan(s, p + 1, Stop::WordEnd);
        let word = s.subrange(p + 1, e);
        if word == word_if() {
            Some(if_directive(s, p, e))
        } else if word == word_for() {
            Some(for_directive(s, p, e))
        } else {
            Some((Ok(TokenView::Variable(word)), e))
        }
    }
}

pub proof fn lemma_find_end(s: Seq<char>, i: int, depth: nat)
    requires
        0 <= i,
    ensures
        find_end(s, i, depth) matches Some(t) ==> i <= t && t + 4 <= s.len() && s[t] == '$',
    decreases s.len() - i,
{
    if i < s.len() {
        if s[i] == '$' {
            lemma_scan(s, i + 1, Stop::WordEnd);
            let e = scan(s, i + 1, Stop::WordEnd);
            let w = s.subrange(i + 1, e);
            if w == word_end() {
                assert(w.len() == 3);
                if depth > 1 {
                    lemma_find_end(s, e, (depth - 1) as nat);
                }
            } else if w == word_if() || w == word_for() {
                lemma_find_end(s, e, depth + 1);
            } else {
                lemma_find_end(s, e, depth);
            }
        } else {
            lemma_find_end(s, i + 1, depth);
        }
    }
}

pub proof fn lemma_block(s: Seq<char>, b0: int)
    requires
        1 <= b0 <= s.len(),
    ensures
        block(s, b0) matches Some((body, next)) ==> b0 <= next <= s.len() && b0 + body.len()
            <= s.len(),
{
    lemma_scan(s, b0, Stop::Newline);
    let le = scan(s, b0, Stop::Newline);
    if le == b0 || (le == b0 + 1 && s[b0] == ' ') {
        if le < s.len() {
            lemma_find_end(s, le + 1, 1);
        }
    } else {
        let b = if s[b0] == ' ' {
            b0 + 1
        } else {
            b0
        };
        lemma_find_end(s, b, 1);
    }
}

pub proof fn lemma_find_in(s: Seq<char>, i: int, j: int)
    ensures
        find_in(s, i, j) matches Some(k) ==> i <= k && k + 4 <= j,
    decreases j - i,
{
    if i + 4 <= j {
        lemma_find_in(s, i + 1, j);
    }
}

/// Each step moves forward, and a block body is shorter than the text left.
pub proof fn lemma_step(s: Seq<char>, p: int)
    ensures
        step(s, p) matches Some((res, np)) ==> {
            &&& p < np <= s.len()
            &&& res matches Ok(TokenView::If { true_block, false_block, .. }) ==> true_block.len()
                < s.len() - p && false_block.len() < s.len() - p
            &&& res matches Ok(TokenView::For { block, .. }) ==> block.len() < s.len() - p
        },
{
    if 0 <= p < s.len() {
        if s[p] != '$' {
            lemma_scan(s, p, Stop::Dollar);
        } else {
            lemma_scan(s, p + 1, Stop::WordEnd);
            let e = scan(s, p + 1, Stop::WordEnd);
            lemma_scan(s, e, Stop::HeaderEnd);
            let c = scan(s, e, Stop::HeaderEnd);
            if c < s.len() {
                lemma_block(s, c + 1);
            }
        }
    }
}

/// How many blocks are still open after scanning `s` from `i` with `depth`
/// open, counting as `find_end` does; `0` once the first one closes.
pub open spec fn depth_after(s: Seq<char>, i: int, depth: nat) -> nat
    decreases s.len() - i,
    when 0 <= i
{
    if i >= s.len() {
        depth
    } else if s[i] == '$' {
        proof {
            lemma_scan(s, i + 1, Stop::WordEnd);
        }
        let e = scan(s, i + 1, Stop::WordEnd);
        let w = s.subrange(i + 1, e);
        if w == word_end() {
            if depth <= 1 {
                0
            } else {
                depth_after(s, e, (depth - 1) as nat)
            }
        } else if w == word_if() || w == word_for() {
            depth_after(s, e, depth + 1)
        } else {
            depth_after(s, e, depth)
        }
    } else {
        depth_after(s, i + 1, depth)
    }
}

/// The `$if`, `$for` and `$end` words of `s[a..t]` pair up: scanning them with
/// one block open never closes it and ends with exactly that block open.
pub open spec fn balanced(s: Seq<char>, a: int, t: int) -> bool {
    &&& find_end(s.subrange(0, t), a, 1) is None
    &&& depth_after(s.subrange(0, t), a, 1) == 1
}

/// `s[t..]` starts with a `$end` word.
pub open spec fn end_word_at(s: Seq<char>, t: int) -> bool {
    &&& 0 <= t
    &&& t + 4 <= s.len()
    &&& s[t] == '$' && s[t + 1] == 'e' && s[t + 2] == 'n' && s[t + 3] == 'd'
    &&& t + 4 == s.len() || s[t + 4] == ' ' || s[t + 4] == '\n' || s[t + 4] == '$'
}

proof fn lemma_scan_prefix(s: Seq<char>, t: int, i: int, k: Stop)
    requires
        0 <= i <= t <= s.len(),
        t == s.len() || crate::text::stops_at(k, s[t]),
    ensures
        scan(s, i, k) == scan(s.subrange(0, t), i, k),
    decreases t - i,
{
    if i < t {
        lemma_scan_prefix(s, t, i + 1, k);
    }
}

proof fn lemma_find_end_prefix(s: Seq<char>, t: int, i: int, depth: nat)
    requires
        0 <= i <= t,
        end_word_at(s, t),
        depth >= 1,
        find_end(s.subrange(0, t), i, depth) is None,
    ensures
        find_end(s, i, depth) == find_end(s, t, depth_after(s.subrange(0, t), i, depth)),
    decreases t - i,
{
    let b = s.subrange(0, t);
    if i < t {
        if s[i] == '$' {
            lemma_scan(b, i + 1, Stop::WordEnd);
            lemma_scan_prefix(s, t, i + 1, Stop::WordEnd);
            let e = scan(b, i + 1, Stop::WordEnd);
            assert(s.subrange(i + 1, e) =~= b.subrange(i + 1, e));
            let w = b.subrange(i + 1, e);
            if w == word_end() {
                if depth > 1 {
                    lemma_find_end_prefix(s, t, e, (depth - 1) as nat);
                }
            } else if w == word_if() || w == word_for() {
                lemma_find_end_prefix(s, t, e, depth + 1);
            } else {
                lemma_find_end_prefix(s, t, e, depth);
            }
        } else {
            lemma_find_end_prefix(s, t, i + 1, depth);
        }
    }
}

/// A block's terminator is the `$end` that closes it, counting nesting: when
/// the text from `a` up to a `$end` at `t` balances its own `$if`/`$for`
/// openers against its own `$end`s, the search that starts at `a` stops at `t`,
/// whatever `$end`s came before it.
pub proof fn lemma_find_end_balanced(s: Seq<char>, a: int, t: int)
    requires
        0 <= a <= t,
        end_word_at(s, t),
        balanced(s, a, t),
    ensures
        find_end(s, a, 1) == Some(t),
{
    lemma_find_end_prefix(s, t, a, 1);
    lemma_scan(s, t + 1, Stop::WordEnd);
    let e = scan(s, t + 1, Stop::WordEnd);
    assert(scan(s, t + 2, Stop::WordEnd) == e);
    assert(scan(s, t + 3, Stop::WordEnd) == e);
    assert(e == t + 4);
    assert(s.subrange(t + 1, e) =~= word_end());
}

/// A block whose header ends its line takes as body every line up to its own
/// `$end`: the `$end` that closes it, counting nesting.
pub proof fn lemma_block_ends_at_its_own_end(s: Seq<char>, b0: int, t: int)
    requires
        1 <= b0 < t,
        s[b0] == '\n',
        end_word_at(s, t),
        balanced(s, b0 + 1, t),
    ensures
        block(s, b0) == Some((s.subrange(b0 + 1, t), after_end(s, t))),
{
    lemma_find_end_balanced(s, b0 + 1, t);
    assert(scan(s, b0, Stop::Newline) == b0);
}

/// A tokenizer over one text: yields its tokens in order, then `None`.
#[derive(Debug)]
pub struct TokenizerIter<'a> {
    source: &'a str,
    chars: Vec<char>,
    pos: usize,
}

fn is_word_end(cs: &Vec<char>, a: usize, b: usize) -> (r: bool)
    requires
        a <= b <= cs@.len(),
    ensures
        r == (cs@.subrange(a as int, b as int) == word_end()),
{
    let r = b - a == 3 && cs[a] == 'e' && cs[a + 1] == 'n' && cs[a + 2] == 'd';
    proof {
        let w = cs@.subrange(a as int, b as int);
        assert(word_end().len() == 3 && word_end()[0] == 'e' && word_end()[1] == 'n' && word_end()[2] == 'd');
        if r {
            assert(w =~= word_end());
        }
    }
    r
}

fn is_word_if(cs: &Vec<char>, a: usize, b: usize) -> (r: bool)
    requires
        a <= b <= cs@.len(),
    ensures
        r == (cs@.subrange(a as int, b as int) == word_if()),
{
    let r = b - a == 2 && cs[a] == 'i' && cs[a + 1] == 'f';
    proof {
        let w = cs@.subrange(a as int, b as int);
        assert(word_if().len() == 2 && word_if()[0] == 'i' && word_if()[1] == 'f');
        if r {
            assert(w =~= word_if());
        }
    }
    r
}

fn is_word_for(cs: &Vec<char>, a: usize, b: usize) -> (r: bool)
    requires
        a <= b <= cs@.len(),
    ensures
        r == (cs@.subrange(a as int, b as int) == word_for()),
{
    let r = b - a == 3 && cs[a] == 'f' && cs[a + 1] == 'o' && cs[a + 2] == 'r';
    proof {
        let w = cs@.subrange(a as int, b as int);
        assert(word_for().len() == 3 && word_for()[0] == 'f' && word_for()[1] == 'o' && word_for()[2] == 'r');
        if r {
            assert(w =~= word_for());
        }
    }
    r
}

/// `Ok` tokens by their view, errors as they are.
pub open spec fn item_view(r: Result<Token, Error>) -> Result<TokenView, Error> {
    match r {
        Ok(t) => Ok(t@),
        Err(e) => Err(e),
    }
}

impl<'a> TokenizerIter<'a> {
    #[verifier::type_invariant]
    spec fn wf(&self) -> bool {
        &&& self.chars@ == self.source@
        &&& self.pos <= self.chars@.len()
    }

    /// The whole text being tokenized.
    pub closed spec fn text(&self) -> Seq<char> {
        self.source@
    }

    /// The index of the character where the next token starts.
    pub closed spec fn position(&self) -> int {
        self.pos as int
    }

    /// A tokenizer at the start of `source`.
    pub fn new(source: &'a str) -> (r: TokenizerIter<'a>)
        ensures
            r.text() == source@,
            r.position() == 0,
    {
        let chars = chars_of(source);
        TokenizerIter { source, chars, pos: 0 }
    }

    fn offset_of(&self, p: usize) -> (r: usize)
        requires
            p <= self.text().len(),
        ensures
            r == byte_offset(self.text(), p as int),
    {
        proof {
            use_type_invariant(self);
        }
        self.source.substring_char(0, p).len()
    }

    fn find_end_from(&self, from: usize) -> (r: Option<usize>)
        requires
            1 <= from <= self.text().len(),
        ensures
            match r {
                Some(t) => find_end(self.text(), from as int, 1) == Some(t as int),
                None => find_end(self.text(), from as int, 1) is None,
            },
    {
        proof {
            use_type_invariant(self);
        }
        let ghost s = self.text();
        let mut i: usize = from;
        let mut depth: usize = 1;
        while i < self.chars.len()
            invariant
                s == self.chars@,
                s == self.text(),
                1 <= from <= i <= s.len(),
                1 <= depth <= i,
                find_end(s, from as int, 1) == find_end(s, i as int, depth as nat),
            decreases self.chars.len() - i,
        {
            if self.chars[i] == '$' {
                let e = scan_to(&self.chars, i + 1, Stop::WordEnd);
                proof {
                    lemma_scan(s, i + 1, Stop::WordEnd);
                }
                if is_word_end(&self.chars, i + 1, e) {
                    if depth == 1 {
                        assert(find_end(s, i as int, depth as nat) == Some(i as int));
                        return Some(i);
                    }
                    depth -= 1;
                } else if is_word_if(&self.chars, i + 1, e) || is_word_for(&self.chars, i + 1, e) {
                    depth += 1;
                }
                i = e;
            } else {
                i += 1;
            }
        }
        None
    }

    fn after_end(&self, t: usize) -> (r: usize)
        requires
            t + 4 <= self.text().len(),
        ensures
            r == after_end(self.text(), t as int),
    {
        proof {
            use_type_invariant(self);
        }
        let len = self.chars.len();
        if t + 4 < len && self.chars[t + 4] == '\n' {
            t + 5
        } else {
            t + 4
        }
    }

    fn block_at(&self, b0: usize) -> (r: Option<(&'a str, usize)>)
        requires
            1 <= b0 <= self.text().len(),
        ensures
            match r {
                Some((body, next)) => block(self.text(), b0 as int) == Some((body@, next as int)),
                None => block(self.text(), b0 as int) is None,
            },
    {
        proof {
            use_type_invariant(self);
        }
        let ghost s = self.text();
        let len = self.chars.len();
        let le = scan_to(&self.chars, b0, Stop::Newline);
        proof {
            lemma_scan(s, b0 as int, Stop::Newline);
        }
        if le == b0 || (le == b0 + 1 && self.chars[b0] == ' ') {
            if le >= len {
                return None;
            }
            match self.find_end_from(le + 1) {
                Some(t) => {
                    proof {
                        lemma_find_end(s, le + 1, 1);
                    }
                    let body = self.source.substring_char(le + 1, t);
                    Some((body, self.after_end(t)))
                },
                None => None,
            }
        } else {
            let b = if self.chars[b0] == ' ' {
                b0 + 1
            } else {
                b0
            };
            match self.find_end_from(b) {
                Some(t) => {
                    proof {
                        lemma_find_end(s, b as int, 1);
                    }
                    let t1 = if t > b && (self.chars[t - 1] == ' ' || self.chars[t - 1] == '\n') {
                        t - 1
                    } else {
                        t
                    };
                    let body = self.source.substring_char(b, t1);
                    Some((body, self.after_end(t)))
                },
                None => Some((self.source.substring_char(b, le), le)),
            }
        }
    }

    fn trimmed_at(&self, i: usize, j: usize) -> (r: &'a str)
        requires
            i <= j <= self.text().len(),
        ensures
            r@ == trimmed(self.text(), i as int, j as int),
    {
        proof {
            use_type_invariant(self);
        }
        let a = skip_blanks_in(&self.chars, i, j);
        proof {
            lemma_blanks(self.text(), i as int, j as int);
        }
        let b = back_blanks_in(&self.chars, a, j);
        proof {
            lemma_blanks(self.text(), a as int, j as int);
        }
        self.source.substring_char(a, b)
    }

    fn if_at(&self, p: usize, e: usize) -> (r: (Result<Token<'a>, Error>, usize))
        requires
            p < e <= self.text().len(),
        ensures
            (item_view(r.0), r.1 as int) == if_directive(self.text(), p as int, e as int),
    {
        proof {
            use_type_invariant(self);
        }
        let ghost s = self.text();
        let len = self.chars.len();
        let c = scan_to(&self.chars, e, Stop::HeaderEnd);
        proof {
            lemma_scan(s, e as int, Stop::HeaderEnd);
        }
        if c >= len || self.chars[c] != ':' {
            return (Err(Error::InvalidIfBlock { offset: self.offset_of(p) }), len);
        }
        let a = skip_blanks_in(&self.chars, e, c);
        proof {
            lemma_blanks(s, e as int, c as int);
        }
        let not = a < c && self.chars[a] == '!';
        let variable = if not {
            self.trimmed_at(a + 1, c)
        } else {
            self.trimmed_at(a, c)
        };
        match self.block_at(c + 1) {
            Some((body, next)) => {
                let none: &'a str = "";
                proof {
                    reveal_strlit("");
                    assert(none@ =~= Seq::<char>::empty());
                }
                let t = Token::If { not, variable, true_block: body, false_block: none };
                (Ok(t), next)
            },
            None => (Err(Error::NoEnd { offset: self.offset_of(p) }), len),
        }
    }

    fn find_in_at(&self, i: usize, j: usize) -> (r: Option<usize>)
        requires
            i <= j <= self.text().len(),
        ensures
            match r {
                Some(k) => find_in(self.text(), i as int, j as int) == Some(k as int),
                None => find_in(self.text(), i as int, j as int) is None,
            },
    {
        proof {
            use_type_invariant(self);
        }
        let mut k: usize = i;
        while j - k >= 4
            invariant
                i <= k <= j <= self.chars@.len(),
                self.chars@ == self.text(),
                find_in(self.text(), i as int, j as int) == find_in(self.text(), k as int, j as int),
            decreases j - k,
        {
            if self.chars[k] == ' ' && self.chars[k + 1] == 'i' && self.chars[k + 2] == 'n'
                && self.chars[k + 3] == ' ' {
                return Some(k);
            }
            k += 1;
        }
        None
    }

    fn for_at(&self, p: usize, e: usize) -> (r: (Result<Token<'a>, Error>, usize))
        requires
            p < e <= self.text().len(),
        ensures
            (item_view(r.0), r.1 as int) == for_directive(self.text(), p as int, e as int),
    {
        proof {
            use_type_invariant(self);
        }
        let ghost s = self.text();
        let len = self.chars.len();
        let c = scan_to(&self.chars, e, Stop::HeaderEnd);
        proof {
            lemma_scan(s, e as int, Stop::HeaderEnd);
        }
        if c >= len || self.chars[c] != ':' {
            return (Err(Error::InvalidForBlock { offset: self.offset_of(p) }), len);
        }
        match self.find_in_at(e, c) {
            None => (Err(Error::InvalidForBlock { offset: self.offset_of(p) }), len),
            Some(k) => {
                proof {
                    lemma_find_in(s, e as int, c as int);
                }
                let name = self.trimmed_at(e, k);
                let variable = self.trimmed_at(k + 4, c);
                match self.block_at(c + 1) {
                    Some((block, next)) => (Ok(Token::For { name, variable, block }), next),
                    None => (Err(Error::NoEnd { offset: self.offset_of(p) }), len),
                }
            },
        }
    }

    fn read_at(&self, p: usize) -> (r: (Result<Token<'a>, Error>, usize))
        requires
            p < self.text().len(),
        ensures
            step(self.text(), p as int) == Some((item_view(r.0), r.1 as int)),
    {
        proof {
            use_type_invariant(self);
        }
        let ghost s = self.text();
        let len = self.chars.len();
        if self.chars[p] != '$' {
            let q = scan_to(&self.chars, p, Stop::Dollar);
            proof {
                lemma_scan(s, p as int, Stop::Dollar);
            }
            (Ok(Token::Text(self.source.substring_char(p, q))), q)
        } else {
            let e = scan_to(&self.chars, p + 1, Stop::WordEnd);
            proof {
                lemma_scan(s, p + 1, Stop::WordEnd);
            }
            if is_word_if(&self.chars, p + 1, e) {
                self.if_at(p, e)
            } else if is_word_for(&self.chars, p + 1, e) {
                self.for_at(p, e)
            } else {
                (Ok(Token::Variable(self.source.substring_char(p + 1, e))), e)
            }
        }
    }

    /// The next token, or `None` at the end of the text. After an error the
    /// tokenizer is at the end.
    pub fn next(&mut self) -> (r: Option<Result<Token<'a>, Error>>)
        ensures
            final(self).text() == old(self).text(),
            match step(old(self).text(), old(self).position()) {
                None => r is None && final(self).position() == old(self).position(),
                Some((item, np)) => r matches Some(x) && item_view(x) == item
                    && final(self).position() == np,
            },
    {
        proof {
            use_type_invariant(&*self);
        }
        if self.pos >= self.chars.len() {
            return None;
        }
        let (item, np) = self.read_at(self.pos);
        proof {
            lemma_step(self.text(), self.pos as int);
        }
        self.pos = np;
        Some(item)
    }
}

} // verus!

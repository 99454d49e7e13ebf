//! Taking text apart: lines, words and the arguments of S-expressions.

use vstd::prelude::*;

use crate::text::slice_string;

verus! {

/// Is the character white space (the Unicode property `White_Space`)?
pub open spec fn white(c: char) -> bool {
    let n = c as u32;
    ||| 9 <= n <= 13
    ||| n == 32
    ||| n == 0x85
    ||| n == 0xa0
    ||| n == 0x1680
    ||| 0x2000 <= n <= 0x200a
    ||| n == 0x2028
    ||| n == 0x2029
    ||| n == 0x202f
    ||| n == 0x205f
    ||| n == 0x3000
}

/// Is the character white space?
pub fn is_white(c: char) -> (r: bool)
    ensures
        r == white(c),
{
    let n = c as u32;
    (9 <= n && n <= 13) || n == 32 || n == 0x85 || n == 0xa0 || n == 0x1680 || (0x2000 <= n && n
        <= 0x200a) || n == 0x2028 || n == 0x2029 || n == 0x202f || n == 0x205f || n == 0x3000
}

/// Is the character an ASCII letter or digit, or an underscore?
pub open spec fn word_char(c: char) -> bool {
    let n = c as u32;
    48 <= n <= 57 || 65 <= n <= 90 || 97 <= n <= 122 || n == 95
}

/// Is the character an ASCII letter or digit, or an underscore?
pub fn is_word_char(c: char) -> (r: bool)
    ensures
        r == word_char(c),
{
    let n = c as u32;
    (48 <= n && n <= 57) || (65 <= n && n <= 90) || (97 <= n && n <= 122) || n == 95
}

/// Is the character an ASCII digit?
pub open spec fn digit_char(c: char) -> bool {
    48 <= c as u32 <= 57
}

/// Is the character an ASCII digit?
pub fn is_digit_char(c: char) -> (r: bool)
    ensures
        r == digit_char(c),
{
    let n = c as u32;
    48 <= n && n <= 57
}

/// The text without white space at its start.
pub open spec fn trim_start(s: Seq<char>) -> Seq<char>
    decreases s.len(),
{
    if s.len() > 0 && white(s[0]) {
        trim_start(s.skip(1))
    } else {
        s
    }
}

/// The text without white space at its end.
pub open spec fn trim_end(s: Seq<char>) -> Seq<char>
    decreases s.len(),
{
    if s.len() > 0 && white(s.last()) {
        trim_end(s.drop_last())
    } else {
        s
    }
}

/// The text without white space at either end.
pub open spec fn trim(s: Seq<char>) -> Seq<char> {
    trim_end(trim_start(s))
}

/// The text without white space at either end.
pub fn trimmed(v: &Vec<char>) -> (r: Vec<char>)
    ensures
        r@ == trim(v@),
        r@.len() <= v@.len(),
{
    let n = v.len();
    let mut from: usize = 0;
    proof {
        assert(v@.skip(0) =~= v@);
    }
    while from < n && is_white(v[from])
        invariant
            from <= n == v@.len(),
            trim_start(v@) == trim_start(v@.skip(from as int)),
        decreases n - from,
    {
        proof {
            assert(v@.skip(from as int).skip(1) =~= v@.skip(from + 1));
        }
        from += 1;
    }
    let ghost start = v@.skip(from as int);
    proof {
        assert(trim_start(start) == start);
        assert(v@.subrange(from as int, n as int) =~= start);
    }
    let mut to: usize = n;
    while to > from && is_white(v[to - 1])
        invariant
            from <= to <= n == v@.len(),
            trim_end(start) == trim_end(v@.subrange(from as int, to as int)),
        decreases to,
    {
        proof {
            assert(v@.subrange(from as int, to as int).drop_last() =~= v@.subrange(
                from as int,
                to - 1,
            ));
        }
        to -= 1;
    }
    slice(v, from, to)
}

/// The characters `v[from..to]`.
pub fn slice(v: &Vec<char>, from: usize, to: usize) -> (r: Vec<char>)
    requires
        from <= to <= v@.len(),
    ensures
        r@ == v@.subrange(from as int, to as int),
{
    let mut r: Vec<char> = Vec::new();
    let mut i: usize = from;
    while i < to
        invariant
            from <= i <= to <= v@.len(),
            r@ == v@.subrange(from as int, i as int),
        decreases to - i,
    {
        r.push(v[i]);
        i += 1;
    }
    r
}

/// The characters as a string.
pub fn to_text(v: &Vec<char>) -> (s: String)
    ensures
        s@ == v@,
{
    let s = slice_string(v, 0, v.len());
    proof {
        assert(v@.subrange(0, v@.len() as int) =~= v@);
    }
    s
}

/// Where to cut.
#[derive(Clone, Copy, PartialEq, Eq, Structural)]
pub enum Cut {
    /// At line feeds.
    Lines,
    /// At white space.
    White,
    /// At everything but letters, digits and underscores.
    Words,
}

impl Cut {
    /// Is the text cut at the character?
    pub open spec fn at(self, c: char) -> bool {
        match self {
            Cut::Lines => c == '\n',
            Cut::White => white(c),
            Cut::Words => !word_char(c),
        }
    }

    fn is_at(self, c: char) -> (r: bool)
        ensures
            r == self.at(c),
    {
        match self {
            Cut::Lines => c == '\n',
            Cut::White => is_white(c),
            Cut::Words => !is_word_char(c),
        }
    }
}

/// The text cut into pieces: one more than there are cuts, some perhaps empty.
pub open spec fn pieces(s: Seq<char>, cut: Cut) -> Seq<Seq<char>>
    decreases s.len(),
{
    if s.len() == 0 {
        seq![Seq::empty()]
    } else {
        let p = pieces(s.drop_last(), cut);
        if cut.at(s.last()) {
            p.push(Seq::empty())
        } else {
            p.drop_last().push(p.last().push(s.last()))
        }
    }
}

/// The views of lists of characters.
pub open spec fn char_views(v: Seq<Vec<char>>) -> Seq<Seq<char>> {
    v.map_values(|p: Vec<char>| p@)
}

proof fn lemma_pieces_nonempty(s: Seq<char>, cut: Cut)
    ensures
        pieces(s, cut).len() >= 1,
    decreases s.len(),
{
    if s.len() > 0 {
        lemma_pieces_nonempty(s.drop_last(), cut);
    }
}

/// The text cut into pieces.
pub fn cut_up(v: &Vec<char>, cut: Cut) -> (r: Vec<Vec<char>>)
    ensures
        char_views(r@) == pieces(v@, cut),
        r@.len() >= 1,
{
    let mut done: Vec<Vec<char>> = Vec::new();
    let mut cur: Vec<char> = Vec::new();
    let mut i: usize = 0;
    proof {
        assert(char_views(done@).push(cur@) =~= pieces(v@.take(0), cut));
    }
    while i < v.len()
        invariant
            i <= v@.len(),
            char_views(done@).push(cur@) == pieces(v@.take(i as int), cut),
        decreases v@.len() - i,
    {
        let ghost before = char_views(done@);
        let ghost had = cur@;
        proof {
            assert(v@.take(i + 1).drop_last() =~= v@.take(i as int));
            assert(before.push(had).drop_last() =~= before);
            assert(before.push(had).last() == had);
        }
        if cut.is_at(v[i]) {
            done.push(cur);
            cur = Vec::new();
            proof {
                assert(char_views(done@) =~= before.push(had));
                assert(cur@ =~= Seq::empty());
            }
        } else {
            cur.push(v[i]);
        }
        i += 1;
    }
    let ghost before = char_views(done@);
    let ghost had = cur@;
    done.push(cur);
    proof {
        assert(v@.take(i as int) =~= v@);
        assert(char_views(done@) =~= before.push(had));
    }
    done
}

/// The pieces that are not empty.
pub open spec fn nonempty(p: Seq<Seq<char>>) -> Seq<Seq<char>>
    decreases p.len(),
{
    if p.len() == 0 {
        Seq::empty()
    } else if p.last().len() == 0 {
        nonempty(p.drop_last())
    } else {
        nonempty(p.drop_last()).push(p.last())
    }
}

/// The words between white space.
pub open spec fn words(s: Seq<char>) -> Seq<Seq<char>> {
    nonempty(pieces(s, Cut::White))
}

/// The pieces that are not empty.
pub fn keep_nonempty(p: Vec<Vec<char>>) -> (r: Vec<Vec<char>>)
    ensures
        char_views(r@) == nonempty(char_views(p@)),
{
    let ghost all = char_views(p@);
    let mut r: Vec<Vec<char>> = Vec::new();
    let mut i: usize = 0;
    proof {
        assert(char_views(r@) =~= nonempty(all.take(0)));
    }
    while i < p.len()
        invariant
            i <= p@.len(),
            all == char_views(p@),
            char_views(r@) == nonempty(all.take(i as int)),
        decreases p@.len() - i,
    {
        proof {
            assert(all.take(i + 1).drop_last() =~= all.take(i as int));
            assert(all.take(i + 1).last() == p@[i as int]@);
        }
        if p[i].len() > 0 {
            let ghost before = char_views(r@);
            let one = slice(&p[i], 0, p[i].len());
            proof {
                assert(one@ =~= p@[i as int]@);
            }
            r.push(one);
            proof {
                assert(char_views(r@) =~= before.push(p@[i as int]@));
            }
        }
        i += 1;
    }
    proof {
        assert(all.take(i as int) =~= all);
    }
    r
}

/// The words between white space.
pub fn words_of(v: &Vec<char>) -> (r: Vec<Vec<char>>)
    ensures
        char_views(r@) == words(v@),
{
    keep_nonempty(cut_up(v, Cut::White))
}

/// The lines of a text, each without white space at its ends. What follows the
/// last line feed is a line only if it is not empty.
pub open spec fn trimmed_lines(s: Seq<char>) -> Seq<Seq<char>> {
    let p = pieces(s, Cut::Lines);
    let q = if p.last().len() == 0 {
        p.drop_last()
    } else {
        p
    };
    q.map_values(|l: Seq<char>| trim(l))
}

/// The lines of a text, each without white space at its ends.
pub fn lines_of(v: &Vec<char>) -> (r: Vec<Vec<char>>)
    ensures
        char_views(r@) == trimmed_lines(v@),
{
    let p = cut_up(v, Cut::Lines);
    let ghost all = char_views(p@);
    let n = if p[p.len() - 1].len() == 0 {
        p.len() - 1
    } else {
        p.len()
    };
    let ghost q = all.take(n as int);
    proof {
        assert(all.last() == p@.last()@);
        if n < all.len() {
            assert(q =~= all.drop_last());
        } else {
            assert(q =~= all);
        }
    }
    let mut r: Vec<Vec<char>> = Vec::new();
    let mut i: usize = 0;
    while i < n
        invariant
            i <= n <= p@.len(),
            all == char_views(p@),
            q == all.take(n as int),
            r@.len() == i,
            forall|j: int| 0 <= j < i ==> (#[trigger] r@[j])@ == trim(q[j]),
        decreases n - i,
    {
        r.push(trimmed(&p[i]));
        i += 1;
    }
    proof {
        assert(char_views(r@) =~= q.map_values(|l: Seq<char>| trim(l)));
    }
    r
}

/// A scan over the arguments of an S-expression: the pieces between white space
/// outside brackets, the piece that is not finished, and the depth of brackets.
pub struct Scan {
    pub done: Seq<Seq<char>>,
    pub cur: Seq<char>,
    pub depth: int,
}

/// Does the character part arguments?
pub open spec fn parts_args(c: char) -> bool {
    c == ' ' || c == '\n' || c == '\t'
}

/// The scan after a text.
pub open spec fn scan_args(s: Seq<char>) -> Scan
    decreases s.len(),
{
    if s.len() == 0 {
        Scan { done: Seq::empty(), cur: Seq::empty(), depth: 0 }
    } else {
        let p = scan_args(s.drop_last());
        let c = s.last();
        if c == '(' {
            Scan { cur: p.cur.push(c), depth: p.depth + 1, ..p }
        } else if c == ')' {
            Scan { cur: p.cur.push(c), depth: p.depth - 1, ..p }
        } else if parts_args(c) && p.depth == 0 {
            Scan { done: p.done.push(p.cur), cur: Seq::empty(), ..p }
        } else {
            Scan { cur: p.cur.push(c), ..p }
        }
    }
}

/// The arguments of an S-expression, without the white space around them.
pub open spec fn sexp_args(s: Seq<char>) -> Seq<Seq<char>> {
    let p = scan_args(trim(s));
    nonempty(p.done.push(p.cur).map_values(|a: Seq<char>| trim(a)))
}

/// The arguments of an S-expression.
pub fn split_sexp_args(v: &Vec<char>) -> (r: Vec<Vec<char>>)
    ensures
        char_views(r@) == sexp_args(v@),
{
    let s = trimmed(v);
    let mut done: Vec<Vec<char>> = Vec::new();
    let mut cur: Vec<char> = Vec::new();
    let n = s.len();
    let mut depth: i128 = 0;
    let mut i: usize = 0;
    let ghost f = |a: Seq<char>| trim(a);
    proof {
        assert(char_views(done@) =~= scan_args(s@.take(0)).done.map_values(f));
        assert(cur@ =~= scan_args(s@.take(0)).cur);
    }
    while i < n
        invariant
            i <= n == s@.len(),
            f == (|a: Seq<char>| trim(a)),
            -i <= depth <= i,
            depth == scan_args(s@.take(i as int)).depth,
            cur@ == scan_args(s@.take(i as int)).cur,
            char_views(done@) == scan_args(s@.take(i as int)).done.map_values(f),
        decreases s@.len() - i,
    {
        let c = s[i];
        let ghost p = scan_args(s@.take(i as int));
        proof {
            assert(s@.take(i + 1).drop_last() =~= s@.take(i as int));
            assert(s@.take(i + 1).last() == c);
        }
        if c == '(' {
            cur.push(c);
            depth = depth + 1;
        } else if c == ')' {
            cur.push(c);
            depth = depth - 1;
        } else if (c == ' ' || c == '\n' || c == '\t') && depth == 0 {
            let ghost before = char_views(done@);
            let t = trimmed(&cur);
            done.push(t);
            cur = Vec::new();
            proof {
                assert(char_views(done@) =~= before.push(f(p.cur)));
                assert(p.done.push(p.cur).map_values(f) =~= p.done.map_values(f).push(f(p.cur)));
                assert(cur@ =~= Seq::empty());
            }
        } else {
            cur.push(c);
        }
        i += 1;
    }
    let ghost p = scan_args(s@);
    proof {
        assert(s@.take(i as int) =~= s@);
    }
    let ghost before = char_views(done@);
    let t = trimmed(&cur);
    done.push(t);
    proof {
        assert(char_views(done@) =~= before.push(f(p.cur)));
        assert(p.done.push(p.cur).map_values(f) =~= p.done.map_values(f).push(f(p.cur)));
    }
    keep_nonempty(done)
}

proof fn lemma_nonempty_subset(p: Seq<Seq<char>>, i: int) -> (j: int)
    requires
        0 <= i < nonempty(p).len(),
    ensures
        0 <= j < p.len(),
        nonempty(p)[i] == p[j],
    decreases p.len(),
{
    if p.last().len() != 0 && i == nonempty(p).len() - 1 {
        p.len() - 1
    } else {
        lemma_nonempty_subset(p.drop_last(), i)
    }
}

proof fn lemma_trim_len(s: Seq<char>)
    ensures
        trim(s).len() <= s.len(),
{
    lemma_trim_start_len(s);
    lemma_trim_end_len(trim_start(s));
}

proof fn lemma_trim_start_len(s: Seq<char>)
    ensures
        trim_start(s).len() <= s.len(),
    decreases s.len(),
{
    if s.len() > 0 && white(s[0]) {
        lemma_trim_start_len(s.skip(1));
    }
}

proof fn lemma_trim_end_len(s: Seq<char>)
    ensures
        trim_end(s).len() <= s.len(),
    decreases s.len(),
{
    if s.len() > 0 && white(s.last()) {
        lemma_trim_end_len(s.drop_last());
    }
}

proof fn lemma_scan_len(s: Seq<char>)
    ensures
        scan_args(s).cur.len() <= s.len(),
        forall|j: int|
            0 <= j < scan_args(s).done.len() ==> (#[trigger] scan_args(s).done[j]).len() <= s.len(),
    decreases s.len(),
{
    if s.len() > 0 {
        lemma_scan_len(s.drop_last());
    }
}

/// No argument is longer than the text.
pub proof fn lemma_args_len(s: Seq<char>)
    ensures
        forall|i: int| 0 <= i < sexp_args(s).len() ==> (#[trigger] sexp_args(s)[i]).len() <= s.len(),
{
    let t = trim(s);
    lemma_trim_len(s);
    lemma_scan_len(t);
    let p = scan_args(t);
    let all = p.done.push(p.cur);
    let cut = all.map_values(|a: Seq<char>| trim(a));
    assert forall|i: int| 0 <= i < sexp_args(s).len() implies (#[trigger] sexp_args(s)[i]).len()
        <= s.len() by {
        let j = lemma_nonempty_subset(cut, i);
        lemma_trim_len(all[j]);
    }
}

} // verus!

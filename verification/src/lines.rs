//! Splitting text into lines and joining lines back into text.

use vstd::prelude::*;
use crate::text::{copy_range, lemma_prefix_len, lemma_prefix_len_unique, other_than, prefix_len};

verus! {

/// The line feed that ends a line.
pub open spec fn newline() -> char {
    '\n'
}

/// Index of the first line feed in `s`, or `s.len()` when there is none.
pub open spec fn first_newline(s: Seq<char>) -> nat {
    prefix_len(s, other_than(newline()))
}

/// `s` without one trailing carriage return, if it ends in one.
pub open spec fn strip_cr(s: Seq<char>) -> Seq<char> {
    if s.len() > 0 && s.last() == '\r' {
        s.drop_last()
    } else {
        s
    }
}

/// The lines of `s`. A line ends at a line feed; a carriage return just
/// before that line feed belongs to the terminator. The last line needs no
/// terminator, and a carriage return at its end stays. Empty text has no
/// lines.
pub open spec fn lines_of(s: Seq<char>) -> Seq<Seq<char>>
    decreases s.len(),
{
    let k = first_newline(s) as int;
    if s.len() == 0 {
        Seq::empty()
    } else if k >= s.len() {
        seq![s]
    } else {
        seq![strip_cr(s.take(k))] + lines_of(s.skip(k + 1))
    }
}

/// The views of a vector of lines.
pub open spec fn line_views(lines: Seq<Vec<char>>) -> Seq<Seq<char>> {
    Seq::new(lines.len(), |i: int| lines[i]@)
}

/// `parts` with `sep` between neighbours.
pub open spec fn join(parts: Seq<Seq<char>>, sep: Seq<char>) -> Seq<char>
    decreases parts.len(),
{
    if parts.len() == 0 {
        Seq::empty()
    } else if parts.len() == 1 {
        parts[0]
    } else {
        join(parts.drop_last(), sep) + sep + parts.last()
    }
}

/// `lines`, each followed by a line feed, one after the other.
pub open spec fn terminated(lines: Seq<Seq<char>>) -> Seq<char>
    decreases lines.len(),
{
    if lines.len() == 0 {
        Seq::empty()
    } else {
        terminated(lines.drop_last()) + lines.last() + seq![newline()]
    }
}

/// Lines that are each followed by a line feed are the lines joined by
/// line feeds, with one more line feed at the end.
pub proof fn lemma_terminated_is_join(lines: Seq<Seq<char>>)
    requires
        lines.len() > 0,
    ensures
        terminated(lines) == join(lines, seq![newline()]) + seq![newline()],
    decreases lines.len(),
{
    let front = lines.drop_last();
    if front.len() == 0 {
        assert(terminated(front) + lines.last() =~= lines.last());
        assert(lines.last() == lines[0]);
    } else {
        lemma_terminated_is_join(front);
        assert(terminated(lines) =~= join(lines, seq![newline()]) + seq![newline()]);
    }
}

/// A text has at most as many lines as characters.
pub proof fn lemma_lines_len(s: Seq<char>)
    ensures
        lines_of(s).len() <= s.len(),
    decreases s.len(),
{
    let k = first_newline(s) as int;
    lemma_prefix_len(s, other_than(newline()));
    if s.len() > 0 && k < s.len() {
        lemma_lines_len(s.skip(k + 1));
    }
}

/// No line of a text holds a line feed.
pub proof fn lemma_lines_hold_no_newline(s: Seq<char>, i: int, j: int)
    requires
        0 <= i < lines_of(s).len(),
        0 <= j < lines_of(s)[i].len(),
    ensures
        lines_of(s)[i][j] != newline(),
    decreases s.len(),
{
    let k = first_newline(s) as int;
    lemma_prefix_len(s, other_than(newline()));
    if k >= s.len() {
        assert(lines_of(s)[0] == s);
    } else if i == 0 {
        assert(lines_of(s)[0] == strip_cr(s.take(k)));
        assert(strip_cr(s.take(k))[j] == s[j]);
    } else {
        assert(lines_of(s)[i] == lines_of(s.skip(k + 1))[i - 1]);
        lemma_lines_hold_no_newline(s.skip(k + 1), i - 1, j);
    }
}

/// Splits `text` into its lines.
pub fn split_lines(text: &[char]) -> (lines: Vec<Vec<char>>)
    ensures
        line_views(lines@) == lines_of(text@),
{
    let mut lines: Vec<Vec<char>> = Vec::new();
    let mut start: usize = 0;
    let mut i: usize = 0;
    assert(line_views(lines@) =~= Seq::<Seq<char>>::empty());
    assert(text@.skip(0) =~= text@);
    while i < text.len()
        invariant
            start <= i <= text.len(),
            forall|j: int| start <= j < i ==> #[trigger] text@[j] != newline(),
            line_views(lines@) + lines_of(text@.skip(start as int)) == lines_of(text@),
        decreases text.len() - i,
    {
        if text[i] == '\n' {
            let end = if i > start && text[i - 1] == '\r' {
                i - 1
            } else {
                i
            };
            let line = copy_range(text, start, end);
            proof {
                let rest = text@.skip(start as int);
                let k = i - start;
                lemma_prefix_len_unique(rest, other_than(newline()), k as nat);
                assert(rest.take(k) =~= text@.subrange(start as int, i as int));
                assert(line@ =~= strip_cr(rest.take(k)));
                assert(rest.skip(k + 1) =~= text@.skip(i + 1));
                assert(line_views(lines@.push(line)) =~= line_views(lines@) + seq![line@]);
            }
            lines.push(line);
            start = i + 1;
        }
        i += 1;
    }
    if start < text.len() {
        let line = copy_range(text, start, text.len());
        proof {
            let rest = text@.skip(start as int);
            lemma_prefix_len_unique(rest, other_than(newline()), rest.len());
            assert(line@ =~= rest);
            assert(line_views(lines@.push(line)) =~= line_views(lines@) + seq![line@]);
        }
        lines.push(line);
    } else {
        assert(line_views(lines@) + Seq::<Seq<char>>::empty() =~= line_views(lines@));
    }
    lines
}

} // verus!

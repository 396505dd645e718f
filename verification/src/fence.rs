//! Recognition of the lines that open and close a fenced block.

use vstd::prelude::*;
use vstd::slice::slice_subrange;
use crate::block::{opt_chars_view, opt_string_view};
use crate::text::{
    chars_of, exactly, leading_run, leading_run_len, leading_whitespace, lemma_prefix_len,
    string_of, trim, trim_start, trimmed,
};

verus! {

/// The shortest run of a glyph that makes a fence.
pub const MIN_FENCE_RUN: usize = 3;

/// What an opening fence line says: its glyph, the length of its run and
/// its language tag.
pub struct FenceMarker {
    pub glyph: char,
    pub run: nat,
    pub lang: Option<Seq<char>>,
}

/// The language tag that follows an opening run: the rest of the line
/// without surrounding white space, absent when nothing is left.
pub open spec fn lang_tag(rest: Seq<char>) -> Option<Seq<char>> {
    let tag = trim(rest);
    if tag.len() == 0 {
        None
    } else {
        Some(tag)
    }
}

/// The marker of `line` when it opens a fence with `glyph`.
pub open spec fn opener_with(line: Seq<char>, glyph: char) -> FenceMarker {
    let body = trim_start(line);
    let run = leading_run(body, glyph);
    FenceMarker { glyph, run, lang: lang_tag(body.skip(run as int)) }
}

/// The marker of `line` if it opens a fence: after leading white space it
/// starts with at least three backticks, or at least three tildes.
pub open spec fn fence_opener(line: Seq<char>) -> Option<FenceMarker> {
    let body = trim_start(line);
    if leading_run(body, '`') >= MIN_FENCE_RUN {
        Some(opener_with(line, '`'))
    } else if leading_run(body, '~') >= MIN_FENCE_RUN {
        Some(opener_with(line, '~'))
    } else {
        None
    }
}

/// Whether `line` closes a fence that was opened with `run` times `glyph`:
/// after leading white space it starts with a run of the same glyph that is
/// at least as long as the opening run, and at least three long.
pub open spec fn closes_fence(line: Seq<char>, glyph: char, run: nat) -> bool {
    let found = leading_run(trim_start(line), glyph);
    found >= run && found >= MIN_FENCE_RUN
}

/// A run of the opening glyph that is at least as long as the opening run
/// closes the fence.
pub proof fn lemma_same_glyph_closes(line: Seq<char>, glyph: char, run: nat)
    requires
        run >= MIN_FENCE_RUN,
        leading_run(trim_start(line), glyph) >= run,
    ensures
        closes_fence(line, glyph, run),
{
}

/// A line that starts, after leading white space, with another glyph than
/// the opening one never closes the fence, however long its run is.
pub proof fn lemma_other_glyph_never_closes(line: Seq<char>, glyph: char, other: char, run: nat)
    requires
        other != glyph,
        leading_run(trim_start(line), other) >= 1,
    ensures
        !closes_fence(line, glyph, run),
{
    let body = trim_start(line);
    lemma_prefix_len(body, exactly(other));
    assert(exactly(other)(body[0]));
    assert(!exactly(glyph)(body[0]));
    assert(leading_run(body, glyph) == 0);
}

/// A run that is shorter than the opening run does not close the fence.
pub proof fn lemma_shorter_run_stays_open(line: Seq<char>, glyph: char, run: nat)
    requires
        leading_run(trim_start(line), glyph) < run,
    ensures
        !closes_fence(line, glyph, run),
{
}

/// An opening marker has one of the two glyphs and a run of three or more.
pub proof fn lemma_opener_shape(line: Seq<char>)
    requires
        fence_opener(line) is Some,
    ensures
        fence_opener(line)->0.glyph == '`' || fence_opener(line)->0.glyph == '~',
        fence_opener(line)->0.run >= MIN_FENCE_RUN,
{
}

/// Reads `line` as an opening fence: glyph, run length and language tag.
pub fn fence_start(line: &[char]) -> (r: Option<(char, usize, Option<Vec<char>>)>)
    ensures
        match r {
            Some((glyph, run, lang)) => fence_opener(line@) == Some(
                FenceMarker { glyph, run: run as nat, lang: opt_chars_view(lang) },
            ),
            None => fence_opener(line@) is None,
        },
{
    let from = leading_whitespace(line);
    let body = slice_subrange(line, from, line.len());
    assert(body@ =~= trim_start(line@));
    let ticks = leading_run_len(body, '`');
    let tildes = leading_run_len(body, '~');
    let glyph = if ticks >= MIN_FENCE_RUN {
        '`'
    } else if tildes >= MIN_FENCE_RUN {
        '~'
    } else {
        return None;
    };
    let run = if ticks >= MIN_FENCE_RUN {
        ticks
    } else {
        tildes
    };
    let rest = slice_subrange(body, run, body.len());
    assert(rest@ =~= body@.skip(run as int));
    let tag = trimmed(rest);
    let lang = if tag.len() == 0 {
        None
    } else {
        Some(tag)
    };
    Some((glyph, run, lang))
}

/// Whether `line` closes a fence opened with `fence_len` times `fence_char`.
pub fn closes(line: &[char], fence_char: char, fence_len: usize) -> (b: bool)
    ensures
        b == closes_fence(line@, fence_char, fence_len as nat),
{
    let from = leading_whitespace(line);
    let body = slice_subrange(line, from, line.len());
    assert(body@ =~= trim_start(line@));
    let found = leading_run_len(body, fence_char);
    found >= fence_len && found >= MIN_FENCE_RUN
}

/// Reads `line` as an opening fence: glyph, run length and language tag.
pub fn parse_fence_start(line: &str) -> (r: Option<(char, usize, Option<String>)>)
    ensures
        match r {
            Some((glyph, run, lang)) => fence_opener(line@) == Some(
                FenceMarker { glyph, run: run as nat, lang: opt_string_view(lang) },
            ),
            None => fence_opener(line@) is None,
        },
{
    let chars = chars_of(line);
    match fence_start(chars.as_slice()) {
        Some((glyph, run, lang)) => {
            let lang = match lang {
                Some(tag) => Some(string_of(tag.as_slice())),
                None => None,
            };
            Some((glyph, run, lang))
        },
        None => None,
    }
}

/// Whether `line` closes a fence opened with `fence_len` times `fence_char`.
pub fn is_closing_fence(line: &str, fence_char: char, fence_len: usize) -> (b: bool)
    ensures
        b == closes_fence(line@, fence_char, fence_len as nat),
{
    let chars = chars_of(line);
    closes(chars.as_slice(), fence_char, fence_len)
}

} // verus!

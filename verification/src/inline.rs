//! Inline code spans: text between two backtick runs of equal length on
//! one line.

use vstd::prelude::*;
use vstd::slice::slice_subrange;
use crate::block::{block_views, BlockKind, BlockView, CodeBlock};
use crate::lines::line_views;
use crate::text::{
    chars_of, copy_range, exactly, leading_run, leading_run_len, lemma_prefix_len, string_of,
};

verus! {

/// The delimiter of inline spans.
pub open spec fn tick() -> char {
    '`'
}

/// A span that has been opened and not yet closed: the length of its
/// opening run and the position just after that run.
pub struct OpenSpan {
    pub ticks: nat,
    pub start: int,
}

/// Length of the backtick run that starts at `pos`.
pub open spec fn run_at(line: Seq<char>, pos: int) -> nat {
    leading_run(line.skip(pos), tick())
}

/// The text between an opening and a closing run, unless it is empty.
pub open spec fn span_between(line: Seq<char>, start: int, end: int) -> Seq<Seq<char>> {
    if start < end {
        seq![line.subrange(start, end)]
    } else {
        Seq::empty()
    }
}

/// The spans found in `line` from `pos` on, when `open` is the span that is
/// open at `pos`. A backtick run opens a span when none is open; it closes
/// the open span when it is exactly as long as the opening run, and is
/// part of the span's text otherwise. A span that is still open at the end
/// of the line yields nothing.
pub open spec fn spans_from(line: Seq<char>, pos: int, open: Option<OpenSpan>) -> Seq<Seq<char>>
    decreases line.len() - pos,
    via spans_from_decreases
{
    if pos < 0 || pos >= line.len() {
        Seq::empty()
    } else if line[pos] != tick() {
        spans_from(line, pos + 1, open)
    } else {
        let run = run_at(line, pos);
        let next = pos + run;
        match open {
            None => spans_from(line, next, Some(OpenSpan { ticks: run, start: next })),
            Some(span) => if run == span.ticks {
                span_between(line, span.start, pos) + spans_from(line, next, None)
            } else {
                spans_from(line, next, open)
            },
        }
    }
}

#[via_fn]
proof fn spans_from_decreases(line: Seq<char>, pos: int, open: Option<OpenSpan>) {
    if 0 <= pos < line.len() && line[pos] == tick() {
        lemma_run_at(line, pos);
    }
}

/// A run that starts at a backtick has at least that backtick and ends
/// within the line.
pub proof fn lemma_run_at(line: Seq<char>, pos: int)
    requires
        0 <= pos < line.len(),
        line[pos] == tick(),
    ensures
        1 <= run_at(line, pos) <= line.len() - pos,
{
    let rest = line.skip(pos);
    lemma_prefix_len(rest, exactly(tick()));
    assert(rest[0] == line[pos]);
    assert(exactly(tick())(rest[0]));
}

/// The inline spans of one line.
pub open spec fn spans_of(line: Seq<char>) -> Seq<Seq<char>> {
    spans_from(line, 0, None)
}

/// The block that stands for an inline span found on line `line_no` of
/// `source`, before indices are assigned.
pub open spec fn inline_block(code: Seq<char>, line_no: nat, source: Seq<char>) -> BlockView {
    BlockView {
        index: 0,
        source,
        kind: BlockKind::Inline,
        lang: None,
        start_line: Some(line_no),
        end_line: Some(line_no),
        code,
    }
}

/// The inline blocks of one line, in the order of their spans.
pub open spec fn inline_blocks(line: Seq<char>, line_no: nat, source: Seq<char>) -> Seq<
    BlockView,
> {
    Seq::new(spans_of(line).len(), |i: int| inline_block(spans_of(line)[i], line_no, source))
}

/// No span is empty.
pub proof fn lemma_spans_not_empty(line: Seq<char>, pos: int, open: Option<OpenSpan>, i: int)
    requires
        open matches Some(span) ==> 0 <= span.start <= pos,
        0 <= i < spans_from(line, pos, open).len(),
    ensures
        spans_from(line, pos, open)[i].len() > 0,
    decreases line.len() - pos,
{
    if pos < 0 || pos >= line.len() {
    } else if line[pos] != tick() {
        lemma_spans_not_empty(line, pos + 1, open, i);
    } else {
        lemma_run_at(line, pos);
        let run = run_at(line, pos);
        let next = pos + run;
        match open {
            None => {
                lemma_spans_not_empty(line, next, Some(OpenSpan { ticks: run, start: next }), i);
            },
            Some(span) => {
                if run == span.ticks {
                    let head = span_between(line, span.start, pos);
                    if i >= head.len() {
                        lemma_spans_not_empty(line, next, None, i - head.len());
                    }
                } else {
                    lemma_spans_not_empty(line, next, open, i);
                }
            },
        }
    }
}

/// A line without a backtick has no spans.
pub proof fn lemma_no_tick_no_span(line: Seq<char>, pos: int, open: Option<OpenSpan>)
    requires
        forall|i: int| 0 <= i < line.len() ==> line[i] != tick(),
    ensures
        spans_from(line, pos, open).len() == 0,
    decreases line.len() - pos,
{
    if 0 <= pos < line.len() {
        lemma_no_tick_no_span(line, pos + 1, open);
    }
}

/// The ghost value of an open span that is kept as a pair of machine
/// integers.
pub open spec fn open_view(open: Option<(usize, usize)>) -> Option<OpenSpan> {
    match open {
        Some((ticks, start)) => Some(OpenSpan { ticks: ticks as nat, start: start as int }),
        None => None,
    }
}

/// The inline spans of `line`, left to right.
pub fn inline_spans(line: &[char]) -> (spans: Vec<Vec<char>>)
    ensures
        line_views(spans@) == spans_of(line@),
{
    let mut spans: Vec<Vec<char>> = Vec::new();
    let mut open: Option<(usize, usize)> = None;
    let mut i: usize = 0;
    assert(line_views(spans@) =~= Seq::<Seq<char>>::empty());
    while i < line.len()
        invariant
            i <= line.len(),
            open matches Some((_, start)) ==> start <= i,
            line_views(spans@) + spans_from(line@, i as int, open_view(open)) == spans_of(line@),
        decreases line.len() - i,
    {
        if line[i] == '`' {
            let rest = slice_subrange(line, i, line.len());
            assert(rest@ =~= line@.skip(i as int));
            let run = leading_run_len(rest, '`');
            proof {
                lemma_run_at(line@, i as int);
            }
            match open {
                None => {
                    open = Some((run, i + run));
                },
                Some((ticks, start)) => {
                    if run == ticks {
                        if start < i {
                            let span = copy_range(line, start, i);
                            assert(line_views(spans@.push(span)) =~= line_views(spans@) + seq![
                                span@,
                            ]);
                            spans.push(span);
                        } else {
                            assert(line_views(spans@) + Seq::<Seq<char>>::empty() =~= line_views(
                                spans@,
                            ));
                        }
                        open = None;
                    }
                },
            }
            i += run;
        } else {
            i += 1;
        }
    }
    assert(line_views(spans@) + Seq::<Seq<char>>::empty() =~= line_views(spans@));
    spans
}

/// The inline blocks of line `line_no` of `source`, left to right. Their
/// indices are zero: they are assigned when all blocks are known.
pub fn parse_inline_blocks(line: &str, line_no: usize, source: &str) -> (blocks: Vec<CodeBlock>)
    ensures
        block_views(blocks@) == inline_blocks(line@, line_no as nat, source@),
{
    let chars = chars_of(line);
    inline_blocks_of(chars.as_slice(), line_no, source)
}

/// The inline blocks of a line that is given by its characters.
pub fn inline_blocks_of(line: &[char], line_no: usize, source: &str) -> (blocks: Vec<CodeBlock>)
    ensures
        block_views(blocks@) == inline_blocks(line@, line_no as nat, source@),
{
    let spans = inline_spans(line);
    let mut blocks: Vec<CodeBlock> = Vec::new();
    let mut i: usize = 0;
    while i < spans.len()
        invariant
            i <= spans.len(),
            line_views(spans@) == spans_of(line@),
            blocks.len() == i,
            forall|j: int|
                0 <= j < i ==> (#[trigger] blocks@[j])@ == inline_block(
                    spans_of(line@)[j],
                    line_no as nat,
                    source@,
                ),
        decreases spans.len() - i,
    {
        assert(line_views(spans@)[i as int] == spans@[i as int]@);
        let block = CodeBlock {
            index: 0,
            source: source.to_owned(),
            kind: BlockKind::Inline,
            lang: None,
            start_line: Some(line_no),
            end_line: Some(line_no),
            code: string_of(spans[i].as_slice()),
        };
        blocks.push(block);
        i += 1;
    }
    assert(line_views(spans@).len() == spans@.len());
    assert(block_views(blocks@) =~= inline_blocks(line@, line_no as nat, source@));
    blocks
}

} // verus!

//! Extraction of the blocks of one document: a walk over its lines that
//! is either outside any fence or inside one.

use vstd::prelude::*;
use vstd::slice::slice_subrange;
use crate::block::{
    block_views, lemma_block_views_push, opt_string_view, BlockKind, BlockView, CodeBlock,
    InputSource,
};
use crate::fence::{
    closes, closes_fence, fence_opener, fence_start, lemma_other_glyph_never_closes, FenceMarker,
    MIN_FENCE_RUN,
};
use crate::inline::{inline_blocks, inline_blocks_of, lemma_spans_not_empty, spans_of};
use crate::lines::{
    join, lemma_lines_len, lemma_terminated_is_join, line_views, lines_of, newline, split_lines,
    terminated,
};
use crate::text::{append_chars, chars_of, leading_run, string_of, trim_start};

verus! {

/// A fence that has been opened and not yet closed.
pub struct OpenFence {
    pub glyph: char,
    pub run: nat,
    pub lang: Option<Seq<char>>,
    /// The lines seen inside the fence so far, each followed by a line feed.
    pub buffer: Seq<char>,
    /// Number of the line after the opening line.
    pub start_line: nat,
}

/// Where the walk over a document's lines stands.
pub enum ScanState {
    Outside,
    InFence(OpenFence),
}

/// The fence that a walk is inside of, as it is kept while walking.
#[derive(Debug)]
pub struct FenceState {
    pub fence_char: char,
    pub fence_len: usize,
    pub lang: Option<String>,
    pub buffer: Vec<char>,
    pub start_line: usize,
}

impl View for FenceState {
    type V = OpenFence;

    open spec fn view(&self) -> OpenFence {
        OpenFence {
            glyph: self.fence_char,
            run: self.fence_len as nat,
            lang: opt_string_view(self.lang),
            buffer: self.buffer@,
            start_line: self.start_line as nat,
        }
    }
}

/// The state that an optional `FenceState` stands for.
pub open spec fn state_view(in_fence: Option<FenceState>) -> ScanState {
    match in_fence {
        Some(fence) => ScanState::InFence(fence@),
        None => ScanState::Outside,
    }
}

/// `text` without one trailing line feed, if it ends in one.
pub open spec fn strip_newline(text: Seq<char>) -> Seq<char> {
    if text.len() > 0 && text.last() == newline() {
        text.drop_last()
    } else {
        text
    }
}

/// The fence that `marker` opens on line `line_no`.
pub open spec fn opened(marker: FenceMarker, line_no: nat) -> OpenFence {
    OpenFence {
        glyph: marker.glyph,
        run: marker.run,
        lang: marker.lang,
        buffer: Seq::empty(),
        start_line: line_no + 1,
    }
}

/// `fence` after `line` has been taken into its body.
pub open spec fn extended(fence: OpenFence, line: Seq<char>) -> OpenFence {
    OpenFence {
        glyph: fence.glyph,
        run: fence.run,
        lang: fence.lang,
        buffer: fence.buffer + line + seq![newline()],
        start_line: fence.start_line,
    }
}

/// The block of a fence whose body ends on line `end_line`, before indices
/// are assigned.
pub open spec fn fenced_block(fence: OpenFence, end_line: nat, source: Seq<char>) -> BlockView {
    BlockView {
        index: 0,
        source,
        kind: BlockKind::Fenced,
        lang: fence.lang,
        start_line: Some(fence.start_line),
        end_line: Some(end_line),
        code: strip_newline(fence.buffer),
    }
}

/// The state after `line`, which has number `line_no`, and the blocks that
/// the line completes. Inside a fence a line either closes the fence or
/// joins its body. Outside, a line either opens a fence or is searched for
/// inline spans, if those are wanted.
pub open spec fn step(
    state: ScanState,
    line: Seq<char>,
    line_no: nat,
    source: Seq<char>,
    include_inline: bool,
) -> (ScanState, Seq<BlockView>) {
    match state {
        ScanState::InFence(fence) => if closes_fence(line, fence.glyph, fence.run) {
            (ScanState::Outside, seq![fenced_block(fence, (line_no - 1) as nat, source)])
        } else {
            (ScanState::InFence(extended(fence, line)), Seq::empty())
        },
        ScanState::Outside => match fence_opener(line) {
            Some(marker) => (ScanState::InFence(opened(marker, line_no)), Seq::empty()),
            None => (
                ScanState::Outside,
                if include_inline {
                    inline_blocks(line, line_no, source)
                } else {
                    Seq::empty()
                },
            ),
        },
    }
}

/// The blocks that the end of the document completes: a fence that is
/// still open ends on the last line.
pub open spec fn finish(state: ScanState, last_line: nat, source: Seq<char>) -> Seq<BlockView> {
    match state {
        ScanState::InFence(fence) => seq![fenced_block(fence, last_line, source)],
        ScanState::Outside => Seq::empty(),
    }
}

/// The blocks found from line index `from` on, when the walk arrives
/// there in `state`.
pub open spec fn scan(
    state: ScanState,
    lines: Seq<Seq<char>>,
    from: int,
    source: Seq<char>,
    include_inline: bool,
) -> Seq<BlockView>
    decreases lines.len() - from,
{
    if from < 0 || from >= lines.len() {
        finish(state, lines.len(), source)
    } else {
        let (next, found) = step(state, lines[from], (from + 1) as nat, source, include_inline);
        found + scan(next, lines, from + 1, source, include_inline)
    }
}

/// The blocks of the document `text` named `name`, in the order in which
/// they are completed, all with index zero.
pub open spec fn document_blocks(name: Seq<char>, text: Seq<char>, include_inline: bool) -> Seq<
    BlockView,
> {
    scan(ScanState::Outside, lines_of(text), 0, name, include_inline)
}

/// The block of `fence`, whose body ends on line `end_line`.
pub fn close_fence(fence: FenceState, end_line: usize, source: &str) -> (block: CodeBlock)
    ensures
        block@ == fenced_block(fence@, end_line as nat, source@),
{
    let len = fence.buffer.len();
    let keep = if len > 0 && fence.buffer[len - 1] == '\n' {
        len - 1
    } else {
        len
    };
    let body = slice_subrange(fence.buffer.as_slice(), 0, keep);
    assert(body@ =~= strip_newline(fence.buffer@));
    CodeBlock {
        index: 0,
        source: source.to_owned(),
        kind: BlockKind::Fenced,
        lang: fence.lang,
        start_line: Some(fence.start_line),
        end_line: Some(end_line),
        code: string_of(body),
    }
}

/// The blocks of `input`, in the order in which they are completed. Their
/// indices are zero: they are assigned when all blocks are known.
pub fn parse_blocks(input: &InputSource, include_inline: bool) -> (blocks: Vec<CodeBlock>)
    requires
        input.content@.len() < usize::MAX,
    ensures
        block_views(blocks@) == document_blocks(input.name@, input.content@, include_inline),
{
    let text = chars_of(input.content.as_str());
    let lines = split_lines(text.as_slice());
    let name = input.name.as_str();
    proof {
        lemma_lines_len(text@);
    }
    let mut blocks: Vec<CodeBlock> = Vec::new();
    let mut in_fence: Option<FenceState> = None;
    let mut idx: usize = 0;
    assert(block_views(blocks@) =~= Seq::<BlockView>::empty());
    while idx < lines.len()
        invariant
            idx <= lines.len() < usize::MAX,
            name@ == input.name@,
            block_views(blocks@) + scan(
                state_view(in_fence),
                line_views(lines@),
                idx as int,
                name@,
                include_inline,
            ) == scan(ScanState::Outside, line_views(lines@), 0, name@, include_inline),
        decreases lines.len() - idx,
    {
        let line_no = idx + 1;
        let line = lines[idx].as_slice();
        assert(line_views(lines@)[idx as int] == line@);
        let ghost before = block_views(blocks@);
        let ghost entered = state_view(in_fence);
        let ghost (next, found) = step(entered, line@, line_no as nat, name@, include_inline);
        let ghost rest = scan(next, line_views(lines@), idx + 1, name@, include_inline);
        assert(scan(entered, line_views(lines@), idx as int, name@, include_inline) == found
            + rest);
        match in_fence.take() {
            Some(fence) => {
                if closes(line, fence.fence_char, fence.fence_len) {
                    let block = close_fence(fence, line_no - 1, name);
                    proof {
                        lemma_block_views_push(blocks@, block);
                        assert(before.push(block@) =~= before + seq![block@]);
                    }
                    blocks.push(block);
                } else {
                    let ghost open = fence@;
                    let mut fence = fence;
                    append_chars(&mut fence.buffer, line);
                    fence.buffer.push('\n');
                    assert(fence.buffer@ =~= open.buffer + line@ + seq![newline()]);
                    assert(fence@ == extended(open, line@));
                    assert(before + Seq::<BlockView>::empty() =~= before);
                    in_fence = Some(fence);
                }
            },
            None => {
                match fence_start(line) {
                    Some((glyph, run, lang)) => {
                        let ghost marker = fence_opener(line@)->0;
                        let lang = match lang {
                            Some(tag) => Some(string_of(tag.as_slice())),
                            None => None,
                        };
                        assert(opt_string_view(lang) == marker.lang);
                        assert(before + Seq::<BlockView>::empty() =~= before);
                        in_fence = Some(
                            FenceState {
                                fence_char: glyph,
                                fence_len: run,
                                lang,
                                buffer: Vec::new(),
                                start_line: line_no + 1,
                            },
                        );
                    },
                    None => {
                        if include_inline {
                            let mut found = inline_blocks_of(line, line_no, name);
                            assert(block_views(blocks@ + found@) =~= before + block_views(
                                found@,
                            ));
                            blocks.append(&mut found);
                        } else {
                            assert(before + Seq::<BlockView>::empty() =~= before);
                        }
                    },
                }
            },
        }
        assert(state_view(in_fence) == next);
        assert(block_views(blocks@) == before + found);
        assert((before + found) + rest =~= before + (found + rest));
        idx += 1;
    }
    match in_fence {
        Some(fence) => {
            let block = close_fence(fence, lines.len(), name);
            proof {
                lemma_block_views_push(blocks@, block);
                assert(block_views(blocks@).push(block@) =~= block_views(blocks@) + seq![block@]);
            }
            blocks.push(block);
        },
        None => {
            assert(block_views(blocks@) + Seq::<BlockView>::empty() =~= block_views(blocks@));
        },
    }
    blocks
}

impl ScanState {
    /// An open fence has one of the two fence glyphs and a run of three or
    /// more.
    pub open spec fn wf(self) -> bool {
        match self {
            ScanState::InFence(fence) => {
                &&& fence.glyph == '`' || fence.glyph == '~'
                &&& fence.run >= MIN_FENCE_RUN
            },
            ScanState::Outside => true,
        }
    }
}

/// `fence` after `lines` have been taken into its body.
pub open spec fn absorbed(fence: OpenFence, lines: Seq<Seq<char>>) -> OpenFence {
    OpenFence {
        glyph: fence.glyph,
        run: fence.run,
        lang: fence.lang,
        buffer: fence.buffer + terminated(lines),
        start_line: fence.start_line,
    }
}

/// The predicate "is a fenced block".
pub open spec fn fenced() -> spec_fn(BlockView) -> bool {
    |b: BlockView| b.kind == BlockKind::Fenced
}

/// A step from a well-formed state leads to a well-formed state.
pub proof fn lemma_step_keeps_wf(
    state: ScanState,
    line: Seq<char>,
    line_no: nat,
    source: Seq<char>,
    include_inline: bool,
)
    requires
        state.wf(),
    ensures
        step(state, line, line_no, source, include_inline).0.wf(),
{
}

/// Inside a fence, a line that starts with a run of the opening glyph at
/// least as long as the opening run ends the block: the body ends on the
/// line before, and the walk is outside again.
pub proof fn lemma_closing_run_ends_block(
    fence: OpenFence,
    line: Seq<char>,
    line_no: nat,
    source: Seq<char>,
    include_inline: bool,
)
    requires
        fence.run >= MIN_FENCE_RUN,
        leading_run(trim_start(line), fence.glyph) >= fence.run,
    ensures
        step(ScanState::InFence(fence), line, line_no, source, include_inline) == (
            ScanState::Outside,
            seq![fenced_block(fence, (line_no - 1) as nat, source)],
        ),
{
}

/// Inside a fence, a line that starts with another glyph than the opening
/// one is body text, however long its run is: the fence stays open and no
/// block is completed.
pub proof fn lemma_other_glyph_is_body(
    fence: OpenFence,
    other: char,
    line: Seq<char>,
    line_no: nat,
    source: Seq<char>,
    include_inline: bool,
)
    requires
        other != fence.glyph,
        leading_run(trim_start(line), other) >= 1,
    ensures
        step(ScanState::InFence(fence), line, line_no, source, include_inline) == (
            ScanState::InFence(extended(fence, line)),
            Seq::<BlockView>::empty(),
        ),
{
    lemma_other_glyph_never_closes(line, fence.glyph, other, fence.run);
}

/// Inside a fence, lines that do not close it are taken into its body.
pub proof fn lemma_scan_in_fence(
    fence: OpenFence,
    lines: Seq<Seq<char>>,
    from: int,
    to: int,
    source: Seq<char>,
    include_inline: bool,
)
    requires
        0 <= from <= to <= lines.len(),
        forall|i: int| from <= i < to ==> !closes_fence(#[trigger] lines[i], fence.glyph, fence.run),
    ensures
        scan(ScanState::InFence(fence), lines, from, source, include_inline) == scan(
            ScanState::InFence(absorbed(fence, lines.subrange(from, to))),
            lines,
            to,
            source,
            include_inline,
        ),
    decreases to - from,
{
    if from == to {
        assert(lines.subrange(from, to) =~= Seq::<Seq<char>>::empty());
        assert(fence.buffer + terminated(lines.subrange(from, to)) =~= fence.buffer);
    } else {
        lemma_scan_in_fence(fence, lines, from, to - 1, source, include_inline);
        let before = absorbed(fence, lines.subrange(from, to - 1));
        assert(lines.subrange(from, to).drop_last() =~= lines.subrange(from, to - 1));
        assert(lines.subrange(from, to).last() == lines[to - 1]);
        assert(extended(before, lines[to - 1]).buffer =~= absorbed(
            fence,
            lines.subrange(from, to),
        ).buffer);
        let (next, found) = step(
            ScanState::InFence(before),
            lines[to - 1],
            to as nat,
            source,
            include_inline,
        );
        assert(found + scan(next, lines, to, source, include_inline) =~= scan(
            next,
            lines,
            to,
            source,
            include_inline,
        ));
    }
}

/// Whether `line`, met outside a fence, yields no block and opens no
/// fence: it is no opening line, and it holds no inline span or inline
/// spans are not wanted.
pub open spec fn plain_line(line: Seq<char>, include_inline: bool) -> bool {
    &&& fence_opener(line) is None
    &&& include_inline ==> spans_of(line).len() == 0
}

/// Outside a fence, plain lines yield nothing.
pub proof fn lemma_scan_plain_lines(
    lines: Seq<Seq<char>>,
    from: int,
    to: int,
    source: Seq<char>,
    include_inline: bool,
)
    requires
        0 <= from <= to <= lines.len(),
        forall|i: int| from <= i < to ==> plain_line(#[trigger] lines[i], include_inline),
    ensures
        scan(ScanState::Outside, lines, from, source, include_inline) == scan(
            ScanState::Outside,
            lines,
            to,
            source,
            include_inline,
        ),
    decreases to - from,
{
    if from < to {
        lemma_scan_plain_lines(lines, from + 1, to, source, include_inline);
        let rest = scan(ScanState::Outside, lines, from + 1, source, include_inline);
        let (next, found) = step(
            ScanState::Outside,
            lines[from],
            (from + 1) as nat,
            source,
            include_inline,
        );
        assert(plain_line(lines[from], include_inline));
        assert(found =~= Seq::<BlockView>::empty());
        assert(found + rest =~= rest);
    }
}

/// Outside a fence, a line yields no block when inline spans are not
/// wanted.
pub proof fn lemma_nothing_outside_without_inline(
    line: Seq<char>,
    line_no: nat,
    source: Seq<char>,
)
    ensures
        step(ScanState::Outside, line, line_no, source, false).1 == Seq::<BlockView>::empty(),
{
}

/// The block of the fence that line index `opener` opens and that ends
/// with line index `end - 1`: its text starts on the line after the opening
/// line and is the lines of the body joined by line feeds.
pub open spec fn block_between(
    lines: Seq<Seq<char>>,
    opener: int,
    end: int,
    source: Seq<char>,
) -> BlockView {
    BlockView {
        index: 0,
        source,
        kind: BlockKind::Fenced,
        lang: fence_opener(lines[opener])->0.lang,
        start_line: Some((opener + 2) as nat),
        end_line: Some(end as nat),
        code: join(lines.subrange(opener + 1, end), seq![newline()]),
    }
}

/// The block of a fence whose body is `lines[opener + 1..end]` is
/// `block_between`.
proof fn lemma_block_between(lines: Seq<Seq<char>>, opener: int, end: int, source: Seq<char>)
    requires
        0 <= opener < end <= lines.len(),
        fence_opener(lines[opener]) is Some,
    ensures
        fenced_block(
            absorbed(
                opened(fence_opener(lines[opener])->0, (opener + 1) as nat),
                lines.subrange(opener + 1, end),
            ),
            end as nat,
            source,
        ) == block_between(lines, opener, end, source),
{
    let body = lines.subrange(opener + 1, end);
    let text = Seq::<char>::empty() + terminated(body);
    assert(text =~= terminated(body));
    if body.len() > 0 {
        lemma_terminated_is_join(body);
        assert(strip_newline(text) =~= join(body, seq![newline()]));
    } else {
        assert(strip_newline(text) =~= join(body, seq![newline()]));
    }
}

/// A document whose only fence is never closed, and whose lines before the
/// fence yield nothing, yields exactly one block. Its text starts after the
/// opening line and ends on the last line of the document.
pub proof fn lemma_unterminated_fence(
    lines: Seq<Seq<char>>,
    opener: int,
    source: Seq<char>,
    include_inline: bool,
)
    requires
        0 <= opener < lines.len(),
        forall|i: int| 0 <= i < opener ==> plain_line(#[trigger] lines[i], include_inline),
        fence_opener(lines[opener]) is Some,
        forall|i: int|
            opener < i < lines.len() ==> !closes_fence(
                #[trigger] lines[i],
                fence_opener(lines[opener])->0.glyph,
                fence_opener(lines[opener])->0.run,
            ),
    ensures
        scan(ScanState::Outside, lines, 0, source, include_inline) == seq![
            block_between(lines, opener, lines.len() as int, source),
        ],
        scan(ScanState::Outside, lines, 0, source, include_inline)[0].end_line == Some(
            lines.len(),
        ),
{
    let marker = fence_opener(lines[opener])->0;
    let fence = opened(marker, (opener + 1) as nat);
    let end = lines.len() as int;
    lemma_scan_plain_lines(lines, 0, opener, source, include_inline);
    lemma_scan_in_fence(fence, lines, opener + 1, end, source, include_inline);
    lemma_block_between(lines, opener, end, source);
    let inside = scan(ScanState::InFence(fence), lines, opener + 1, source, include_inline);
    assert(Seq::<BlockView>::empty() + inside =~= inside);
}

/// A document whose first fence is opened by line index `opener` and closed
/// by line index `closer`, and whose lines before the fence yield nothing,
/// yields the block of the lines between the two, and then what the lines
/// after the closing line yield.
pub proof fn lemma_closed_fence(
    lines: Seq<Seq<char>>,
    opener: int,
    closer: int,
    source: Seq<char>,
    include_inline: bool,
)
    requires
        0 <= opener < closer < lines.len(),
        forall|i: int| 0 <= i < opener ==> plain_line(#[trigger] lines[i], include_inline),
        fence_opener(lines[opener]) is Some,
        forall|i: int|
            opener < i < closer ==> !closes_fence(
                #[trigger] lines[i],
                fence_opener(lines[opener])->0.glyph,
                fence_opener(lines[opener])->0.run,
            ),
        closes_fence(
            lines[closer],
            fence_opener(lines[opener])->0.glyph,
            fence_opener(lines[opener])->0.run,
        ),
    ensures
        scan(ScanState::Outside, lines, 0, source, include_inline) == seq![
            block_between(lines, opener, closer, source),
        ] + scan(ScanState::Outside, lines, closer + 1, source, include_inline),
{
    let marker = fence_opener(lines[opener])->0;
    let fence = opened(marker, (opener + 1) as nat);
    lemma_scan_plain_lines(lines, 0, opener, source, include_inline);
    lemma_scan_in_fence(fence, lines, opener + 1, closer, source, include_inline);
    lemma_block_between(lines, opener, closer, source);
    let inside = scan(ScanState::InFence(fence), lines, opener + 1, source, include_inline);
    assert(Seq::<BlockView>::empty() + inside =~= inside);
}

/// Without inline spans every block is a fenced block.
pub proof fn lemma_fenced_only(
    state: ScanState,
    lines: Seq<Seq<char>>,
    from: int,
    source: Seq<char>,
    k: int,
)
    requires
        0 <= k < scan(state, lines, from, source, false).len(),
    ensures
        scan(state, lines, from, source, false)[k].kind == BlockKind::Fenced,
    decreases lines.len() - from,
{
    if 0 <= from < lines.len() {
        let (next, found) = step(state, lines[from], (from + 1) as nat, source, false);
        if k >= found.len() {
            lemma_fenced_only(next, lines, from + 1, source, k - found.len());
        }
    }
}

/// An inline block comes from a line outside any fence: a step that starts
/// inside a fence completes no inline block.
pub proof fn lemma_no_inline_inside_fence(
    fence: OpenFence,
    line: Seq<char>,
    line_no: nat,
    source: Seq<char>,
    include_inline: bool,
    k: int,
)
    requires
        0 <= k < step(ScanState::InFence(fence), line, line_no, source, include_inline).1.len(),
    ensures
        step(ScanState::InFence(fence), line, line_no, source, include_inline).1[k].kind
            == BlockKind::Fenced,
{
}

/// Every block names its document, has index zero and has both line
/// numbers. An inline block lies on one line, has no language and is not
/// empty.
pub proof fn lemma_block_shape(
    state: ScanState,
    lines: Seq<Seq<char>>,
    from: int,
    source: Seq<char>,
    include_inline: bool,
    k: int,
)
    requires
        0 <= k < scan(state, lines, from, source, include_inline).len(),
    ensures
        ({
            let b = scan(state, lines, from, source, include_inline)[k];
            &&& b.source == source
            &&& b.index == 0
            &&& b.start_line is Some
            &&& b.end_line is Some
            &&& b.kind == BlockKind::Inline ==> {
                &&& b.start_line == b.end_line
                &&& b.lang is None
                &&& b.code.len() > 0
            }
        }),
    decreases lines.len() - from,
{
    if 0 <= from < lines.len() {
        let (next, found) = step(state, lines[from], (from + 1) as nat, source, include_inline);
        if k >= found.len() {
            lemma_block_shape(next, lines, from + 1, source, include_inline, k - found.len());
        } else if state is Outside {
            lemma_spans_not_empty(lines[from], 0, None, k);
        }
    }
}

} // verus!

//! The extracted unit: a code block with its place in its source.

use vstd::prelude::*;

verus! {

/// How a block was written in its source.
#[derive(Debug, Clone, Copy, PartialEq, Eq, Structural)]
pub enum BlockKind {
    /// Lines between an opening and a closing fence.
    Fenced,
    /// A span between two equal backtick runs on one line.
    Inline,
}

/// A named text to extract blocks from.
#[derive(Debug, Clone)]
pub struct InputSource {
    pub name: String,
    pub content: String,
}

/// One extracted block.
#[derive(Debug, Clone)]
pub struct CodeBlock {
    /// Position among all blocks of a run, counted from zero.
    pub index: usize,
    /// Name of the source the block was found in.
    pub source: String,
    pub kind: BlockKind,
    /// Language tag of a fenced block, if it has one.
    pub lang: Option<String>,
    /// First line of the block's text, counted from one.
    pub start_line: Option<usize>,
    /// Last line of the block's text, counted from one.
    pub end_line: Option<usize>,
    /// The extracted text.
    pub code: String,
}

/// What a `CodeBlock` holds, as mathematical values.
pub struct BlockView {
    pub index: nat,
    pub source: Seq<char>,
    pub kind: BlockKind,
    pub lang: Option<Seq<char>>,
    pub start_line: Option<nat>,
    pub end_line: Option<nat>,
    pub code: Seq<char>,
}

/// The characters of an optional string.
pub open spec fn opt_string_view(o: Option<String>) -> Option<Seq<char>> {
    match o {
        Some(s) => Some(s@),
        None => None,
    }
}

/// The characters of an optional character vector.
pub open spec fn opt_chars_view(o: Option<Vec<char>>) -> Option<Seq<char>> {
    match o {
        Some(s) => Some(s@),
        None => None,
    }
}

/// An optional machine integer as an optional natural number.
pub open spec fn opt_nat(o: Option<usize>) -> Option<nat> {
    match o {
        Some(n) => Some(n as nat),
        None => None,
    }
}

impl View for CodeBlock {
    type V = BlockView;

    open spec fn view(&self) -> BlockView {
        BlockView {
            index: self.index as nat,
            source: self.source@,
            kind: self.kind,
            lang: opt_string_view(self.lang),
            start_line: opt_nat(self.start_line),
            end_line: opt_nat(self.end_line),
            code: self.code@,
        }
    }
}

/// The views of a sequence of blocks.
pub open spec fn block_views(blocks: Seq<CodeBlock>) -> Seq<BlockView> {
    Seq::new(blocks.len(), |i: int| blocks[i]@)
}

/// Pushing a block onto a vector pushes its view onto the vector's views.
pub proof fn lemma_block_views_push(blocks: Seq<CodeBlock>, b: CodeBlock)
    ensures
        block_views(blocks.push(b)) == block_views(blocks).push(b@),
{
    assert(block_views(blocks.push(b)) =~= block_views(blocks).push(b@));
}

/// A copy of an optional string.
pub fn clone_opt_string(o: &Option<String>) -> (r: Option<String>)
    ensures
        opt_string_view(r) == opt_string_view(*o),
{
    match o {
        Some(s) => Some(s.clone()),
        None => None,
    }
}

} // verus!

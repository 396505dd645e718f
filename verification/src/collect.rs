//! Blocks of several documents, numbered in one sequence.

use vstd::prelude::*;
use crate::block::{block_views, BlockView, CodeBlock, InputSource};
use crate::document::{document_blocks, parse_blocks};

verus! {

/// `block` with its index set to `index`.
pub open spec fn with_index(block: BlockView, index: nat) -> BlockView {
    BlockView {
        index,
        source: block.source,
        kind: block.kind,
        lang: block.lang,
        start_line: block.start_line,
        end_line: block.end_line,
        code: block.code,
    }
}

/// `blocks`, each with its position as its index.
pub open spec fn numbered(blocks: Seq<BlockView>) -> Seq<BlockView> {
    Seq::new(blocks.len(), |i: int| with_index(blocks[i], i as nat))
}

/// The blocks of one document, as found.
pub open spec fn blocks_of(doc: InputSource, include_inline: bool) -> Seq<BlockView> {
    document_blocks(doc.name@, doc.content@, include_inline)
}

/// The blocks of `docs`, document after document, as found.
pub open spec fn concatenated(docs: Seq<InputSource>, include_inline: bool) -> Seq<BlockView>
    decreases docs.len(),
{
    if docs.len() == 0 {
        Seq::empty()
    } else {
        concatenated(docs.drop_last(), include_inline) + blocks_of(docs.last(), include_inline)
    }
}

/// The blocks of `docs`, document after document, numbered from zero.
pub open spec fn collected(docs: Seq<InputSource>, include_inline: bool) -> Seq<BlockView> {
    numbered(concatenated(docs, include_inline))
}

/// Number of blocks in the documents before document `i`.
pub open spec fn blocks_before(docs: Seq<InputSource>, include_inline: bool, i: int) -> nat {
    concatenated(docs.take(i), include_inline).len()
}

/// Whether every document is short enough for its line numbers to be
/// counted.
pub open spec fn countable(docs: Seq<InputSource>) -> bool {
    forall|i: int| 0 <= i < docs.len() ==> (#[trigger] docs[i]).content@.len() < usize::MAX
}

/// The blocks of the first `i + 1` documents are those of the first `i`,
/// followed by those of document `i`.
pub proof fn lemma_concatenated_step(docs: Seq<InputSource>, include_inline: bool, i: int)
    requires
        0 <= i < docs.len(),
    ensures
        concatenated(docs.take(i + 1), include_inline) == concatenated(
            docs.take(i),
            include_inline,
        ) + blocks_of(docs[i], include_inline),
{
    assert(docs.take(i + 1).drop_last() =~= docs.take(i));
    assert(docs.take(i + 1).last() == docs[i]);
}

/// The blocks of the first `i` documents open the blocks of all.
pub proof fn lemma_concatenated_prefix(docs: Seq<InputSource>, include_inline: bool, i: int)
    requires
        0 <= i <= docs.len(),
    ensures
        blocks_before(docs, include_inline, i) <= concatenated(docs, include_inline).len(),
        concatenated(docs, include_inline).take(blocks_before(docs, include_inline, i) as int)
            == concatenated(docs.take(i), include_inline),
    decreases docs.len() - i,
{
    let all = concatenated(docs, include_inline);
    if i == docs.len() {
        assert(docs.take(i) =~= docs);
        assert(all.take(all.len() as int) =~= all);
    } else {
        lemma_concatenated_prefix(docs, include_inline, i + 1);
        lemma_concatenated_step(docs, include_inline, i);
        let upto = concatenated(docs.take(i + 1), include_inline);
        let before = concatenated(docs.take(i), include_inline);
        assert(all.take(before.len() as int) =~= upto.take(before.len() as int));
        assert(upto.take(before.len() as int) =~= before);
    }
}

/// Block `j` of document `i` stands at the number of blocks in the
/// documents before it plus `j`, and that position is its index.
pub proof fn lemma_index_is_offset_plus_position(
    docs: Seq<InputSource>,
    include_inline: bool,
    i: int,
    j: int,
)
    requires
        0 <= i < docs.len(),
        0 <= j < blocks_of(docs[i], include_inline).len(),
    ensures
        blocks_before(docs, include_inline, i) + j < collected(docs, include_inline).len(),
        collected(docs, include_inline)[blocks_before(docs, include_inline, i) + j] == with_index(
            blocks_of(docs[i], include_inline)[j],
            (blocks_before(docs, include_inline, i) + j) as nat,
        ),
{
    let all = concatenated(docs, include_inline);
    let before = concatenated(docs.take(i), include_inline);
    let upto = concatenated(docs.take(i + 1), include_inline);
    lemma_concatenated_step(docs, include_inline, i);
    lemma_concatenated_prefix(docs, include_inline, i + 1);
    let at = before.len() + j;
    assert(upto[at] == blocks_of(docs[i], include_inline)[j]);
    assert(all.take(upto.len() as int)[at] == all[at]);
}

/// The indices of the collected blocks are their positions: they run from
/// zero to the number of all blocks, without gap or repeat.
pub proof fn lemma_indices_are_positions(docs: Seq<InputSource>, include_inline: bool)
    ensures
        collected(docs, include_inline).len() == blocks_before(
            docs,
            include_inline,
            docs.len() as int,
        ),
        forall|p: int|
            0 <= p < collected(docs, include_inline).len() ==> (#[trigger] collected(
                docs,
                include_inline,
            )[p]).index == p,
{
    assert(docs.take(docs.len() as int) =~= docs);
}

/// Gives every block its position as its index.
pub fn renumber(blocks: &mut Vec<CodeBlock>)
    ensures
        block_views(final(blocks)@) == numbered(block_views(old(blocks)@)),
{
    let mut k: usize = 0;
    while k < blocks.len()
        invariant
            k <= blocks.len(),
            blocks@.len() == old(blocks)@.len(),
            forall|i: int|
                0 <= i < k ==> (#[trigger] blocks@[i])@ == with_index(old(blocks)@[i]@, i as nat),
            forall|i: int| k <= i < blocks@.len() ==> #[trigger] blocks@[i] == old(blocks)@[i],
        decreases blocks.len() - k,
    {
        blocks[k].index = k;
        k += 1;
    }
    assert(block_views(blocks@) =~= numbered(block_views(old(blocks)@)));
}

/// The blocks of `inputs`, document after document, numbered from zero in
/// that order.
pub fn collect_blocks(inputs: Vec<InputSource>, include_inline: bool) -> (blocks: Vec<CodeBlock>)
    requires
        countable(inputs@),
    ensures
        block_views(blocks@) == collected(inputs@, include_inline),
        forall|p: int| 0 <= p < blocks@.len() ==> (#[trigger] blocks@[p]).index == p,
{
    let mut blocks: Vec<CodeBlock> = Vec::new();
    let mut i: usize = 0;
    assert(block_views(blocks@) =~= concatenated(inputs@.take(0), include_inline));
    while i < inputs.len()
        invariant
            i <= inputs.len(),
            countable(inputs@),
            block_views(blocks@) == concatenated(inputs@.take(i as int), include_inline),
        decreases inputs.len() - i,
    {
        let mut parsed = parse_blocks(&inputs[i], include_inline);
        proof {
            lemma_concatenated_step(inputs@, include_inline, i as int);
            assert(block_views(blocks@ + parsed@) =~= block_views(blocks@) + block_views(
                parsed@,
            ));
        }
        blocks.append(&mut parsed);
        i += 1;
    }
    assert(inputs@.take(i as int) =~= inputs@);
    let ghost found = block_views(blocks@);
    renumber(&mut blocks);
    assert forall|p: int| 0 <= p < blocks@.len() implies (#[trigger] blocks@[p]).index == p by {
        assert(block_views(blocks@).len() == blocks@.len());
        assert(block_views(blocks@)[p] == blocks@[p]@);
        assert(numbered(found)[p].index == p);
    }
    blocks
}

} // verus!

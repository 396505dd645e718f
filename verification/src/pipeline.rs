//! From documents to the blocks that were asked for.

use vstd::prelude::*;
use crate::block::{block_views, BlockView, CodeBlock, InputSource};
use crate::collect::{collect_blocks, collected, countable};
use crate::select::{
    by_index, distinct_indices, filter_blocks, lemma_filter_keeps_distinct,
    lemma_single_selects_at_most_one, opt_str_view, parse_index_filter, requested_filter,
    selected, speaks, IndexFilter, LangSelector, RangeError,
};

verus! {

/// Why no blocks are handed out.
#[derive(Debug, Clone, Copy, PartialEq, Eq, Structural)]
pub enum ExtractError {
    /// There is no document at all.
    NoInput,
    /// The request for an index or a range is refused.
    Range(RangeError),
    /// No block is left: the documents hold none, or none was asked for.
    NoMatch,
}

/// The language that `selector` restricts the blocks to, if any.
pub open spec fn language_of(selector: LangSelector) -> Option<Seq<char>> {
    match selector {
        LangSelector::Filter(lang) => Some(lang@),
        _ => None,
    }
}

/// What is handed out for `docs`: the blocks of all documents, numbered,
/// then restricted to the language of `selector` and to the indices that
/// `number` asks for. Without documents there is nothing to do; a request
/// that cannot be read is refused; and an empty result is reported as
/// such.
pub open spec fn extraction(
    docs: Seq<InputSource>,
    include_inline: bool,
    selector: LangSelector,
    number: Option<Seq<char>>,
) -> Result<Seq<BlockView>, ExtractError> {
    if docs.len() == 0 {
        Err(ExtractError::NoInput)
    } else {
        match requested_filter(number) {
            Err(e) => Err(ExtractError::Range(e)),
            Ok(filter) => {
                let kept = selected(
                    collected(docs, include_inline),
                    language_of(selector),
                    filter,
                );
                if kept.len() == 0 {
                    Err(ExtractError::NoMatch)
                } else {
                    Ok(kept)
                }
            },
        }
    }
}

/// Whether every block has its position as its index.
pub open spec fn indexed_by_position(blocks: Seq<BlockView>) -> bool {
    forall|p: int| 0 <= p < blocks.len() ==> (#[trigger] blocks[p]).index == p
}

/// Blocks that have their positions as indices have distinct indices.
pub proof fn lemma_positions_are_distinct(blocks: Seq<BlockView>)
    requires
        indexed_by_position(blocks),
    ensures
        distinct_indices(blocks),
{
}

/// The collected blocks have their positions as indices.
pub proof fn lemma_collected_indexed(docs: Seq<InputSource>, include_inline: bool)
    ensures
        indexed_by_position(collected(docs, include_inline)),
{
}

/// A block that is selected is the block that stands at its index among
/// all blocks: the filters go by the numbering that was made before any
/// block was removed, and change no block.
pub proof fn lemma_selected_keep_their_place(
    blocks: Seq<BlockView>,
    language: Option<Seq<char>>,
    filter: Option<IndexFilter>,
    k: int,
)
    requires
        indexed_by_position(blocks),
        0 <= k < selected(blocks, language, filter).len(),
    ensures
        selected(blocks, language, filter)[k].index < blocks.len(),
        blocks[selected(blocks, language, filter)[k].index as int] == selected(
            blocks,
            language,
            filter,
        )[k],
{
    let kept = selected(blocks, language, filter);
    let b = kept[k];
    let of_language = match language {
        Some(lang) => blocks.filter(speaks(lang)),
        None => blocks,
    };
    assert(kept.contains(b));
    if let Some(f) = filter {
        of_language.lemma_filter_contains_rev(by_index(f), b);
    }
    assert(of_language.contains(b));
    if let Some(lang) = language {
        blocks.lemma_filter_contains_rev(speaks(lang), b);
    }
    assert(blocks.contains(b));
    let i = choose|i: int| 0 <= i < blocks.len() && blocks[i] == b;
    assert(blocks[i].index == i);
}

/// Among numbered blocks a single index selects at most one block,
/// whatever language filter came first.
pub proof fn lemma_single_index_selects_at_most_one(
    blocks: Seq<BlockView>,
    language: Option<Seq<char>>,
    n: usize,
)
    requires
        indexed_by_position(blocks),
    ensures
        selected(blocks, language, Some(IndexFilter::Single(n))).len() <= 1,
        forall|k: int|
            0 <= k < selected(blocks, language, Some(IndexFilter::Single(n))).len() ==> (
            #[trigger] selected(blocks, language, Some(IndexFilter::Single(n)))[k]).index == n,
{
    let of_language = match language {
        Some(lang) => blocks.filter(speaks(lang)),
        None => blocks,
    };
    if let Some(lang) = language {
        lemma_filter_keeps_distinct(blocks, speaks(lang));
    }
    lemma_single_selects_at_most_one(of_language, n);
}

/// The blocks of `inputs` that `selector` and `number` ask for.
pub fn extract_matching(
    inputs: Vec<InputSource>,
    include_inline: bool,
    selector: &LangSelector,
    number: Option<&str>,
) -> (r: Result<Vec<CodeBlock>, ExtractError>)
    requires
        countable(inputs@),
    ensures
        match r {
            Ok(blocks) => extraction(inputs@, include_inline, *selector, opt_str_view(number))
                == Ok::<Seq<BlockView>, ExtractError>(block_views(blocks@)),
            Err(e) => extraction(inputs@, include_inline, *selector, opt_str_view(number))
                == Err::<Seq<BlockView>, ExtractError>(e),
        },
{
    if inputs.len() == 0 {
        return Err(ExtractError::NoInput);
    }
    let filter = match parse_index_filter(number) {
        Ok(filter) => filter,
        Err(e) => {
            return Err(ExtractError::Range(e));
        },
    };
    let language = match selector {
        LangSelector::Filter(lang) => Some(lang.as_str()),
        _ => None,
    };
    let blocks = collect_blocks(inputs, include_inline);
    match filter_blocks(blocks, language, filter) {
        Ok(kept) => {
            assert(block_views(kept@).len() == kept@.len());
            if kept.len() == 0 {
                Err(ExtractError::NoMatch)
            } else {
                Ok(kept)
            }
        },
        Err(e) => Err(ExtractError::Range(e)),
    }
}

} // verus!

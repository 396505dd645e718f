//! Choosing blocks by language and by index.

use vstd::prelude::*;
use vstd::slice::slice_subrange;
use crate::block::{block_views, lemma_block_views_push, BlockView, CodeBlock};
use crate::number::{lemma_parsed_number_fits, parse_number, parsed_number, NumberError};
use crate::text::{
    chars_of, leading_whitespace, lemma_prefix_len_unique, lowercase, other_than, prefix_len,
    to_lowercase, trailing_whitespace, trim, trim_start,
};

verus! {

/// Which blocks are wanted, by index.
#[derive(Debug, Clone, Copy, PartialEq, Eq, Structural)]
pub enum IndexFilter {
    /// The block with this index.
    Single(usize),
    /// The blocks whose index lies between `start` and `end`, both
    /// included.
    Range { start: usize, end: usize },
}

/// Why a request for an index or a range is refused.
#[derive(Debug, Clone, Copy, PartialEq, Eq, Structural)]
pub enum RangeError {
    /// A part of the request is no number.
    Unparsable(NumberError),
    /// The range starts after its end.
    StartAfterEnd,
}

/// What is wanted of the languages of the blocks.
#[derive(Debug)]
pub enum LangSelector {
    /// Blocks of every language, and those without one.
    All,
    /// The list of the languages that occur.
    List,
    /// The blocks of this language.
    Filter(String),
}

impl RangeError {
    /// What went wrong, in words.
    pub open spec fn text(self) -> Seq<char> {
        match self {
            RangeError::Unparsable(e) => e.text(),
            RangeError::StartAfterEnd => "range start must be <= end"@,
        }
    }

    /// What went wrong, in words.
    pub fn message(&self) -> (s: String)
        ensures
            s@ == self.text(),
    {
        match self {
            RangeError::Unparsable(e) => e.message(),
            RangeError::StartAfterEnd => "range start must be <= end".to_owned(),
        }
    }
}

impl IndexFilter {
    /// A range does not start after its end.
    pub open spec fn wf(self) -> bool {
        match self {
            IndexFilter::Single(_) => true,
            IndexFilter::Range { start, end } => start <= end,
        }
    }

    /// Whether the filter lets a block with `index` pass.
    pub open spec fn selects(self, index: nat) -> bool {
        match self {
            IndexFilter::Single(n) => index == n,
            IndexFilter::Range { start, end } => start <= index <= end,
        }
    }

    /// Whether the filter lets a block with `index` pass.
    pub fn admits(&self, index: usize) -> (b: bool)
        ensures
            b == self.selects(index as nat),
    {
        match self {
            IndexFilter::Single(n) => index == *n,
            IndexFilter::Range { start, end } => *start <= index && index <= *end,
        }
    }
}

/// The separator between the two ends of a range.
pub open spec fn dash() -> char {
    '-'
}

/// The number that `text` holds between white space.
pub open spec fn trimmed_number(text: Seq<char>) -> Result<nat, NumberError> {
    parsed_number(trim(text), usize::MAX as nat)
}

/// The filter that `raw` asks for. Text with a `-` is a range: the number
/// before the first `-` is its start and the number after it its end. Other
/// text is a single index. The start is read before the end, and both
/// before they are compared.
pub open spec fn index_filter_of(raw: Seq<char>) -> Result<IndexFilter, RangeError> {
    let at = prefix_len(raw, other_than(dash())) as int;
    if at < raw.len() {
        match trimmed_number(raw.take(at)) {
            Err(e) => Err(RangeError::Unparsable(e)),
            Ok(start) => match trimmed_number(raw.skip(at + 1)) {
                Err(e) => Err(RangeError::Unparsable(e)),
                Ok(end) => if start > end {
                    Err(RangeError::StartAfterEnd)
                } else {
                    Ok(IndexFilter::Range { start: start as usize, end: end as usize })
                },
            },
        }
    } else {
        match trimmed_number(raw) {
            Err(e) => Err(RangeError::Unparsable(e)),
            Ok(n) => Ok(IndexFilter::Single(n as usize)),
        }
    }
}

/// The filter that an optional request asks for: none when nothing is
/// requested.
pub open spec fn requested_filter(raw: Option<Seq<char>>) -> Result<
    Option<IndexFilter>,
    RangeError,
> {
    match raw {
        None => Ok(None),
        Some(text) => match index_filter_of(text) {
            Ok(filter) => Ok(Some(filter)),
            Err(e) => Err(e),
        },
    }
}

/// The characters of an optional string slice.
pub open spec fn opt_str_view(o: Option<&str>) -> Option<Seq<char>> {
    match o {
        Some(s) => Some(s@),
        None => None,
    }
}

/// A filter that was read from text is well formed.
pub proof fn lemma_read_filter_is_wf(raw: Seq<char>)
    requires
        index_filter_of(raw) is Ok,
    ensures
        index_filter_of(raw)->Ok_0.wf(),
{
    let at = prefix_len(raw, other_than(dash())) as int;
    if at < raw.len() {
        lemma_parsed_number_fits(trim(raw.take(at)), usize::MAX as nat);
        lemma_parsed_number_fits(trim(raw.skip(at + 1)), usize::MAX as nat);
    }
}

/// Reads the number that `text` holds between white space.
fn number_in(text: &[char]) -> (r: Result<usize, NumberError>)
    ensures
        match r {
            Ok(n) => trimmed_number(text@) == Ok::<nat, NumberError>(n as nat),
            Err(e) => trimmed_number(text@) == Err::<nat, NumberError>(e),
        },
{
    let from = leading_whitespace(text);
    let rest = slice_subrange(text, from, text.len());
    assert(rest@ =~= trim_start(text@));
    let drop = trailing_whitespace(rest);
    let body = slice_subrange(rest, 0, rest.len() - drop);
    assert(body@ =~= trim(text@));
    parse_number(body)
}

/// Reads a request for an index (`3`) or a range (`1-4`).
pub fn parse_index_filter(raw: Option<&str>) -> (r: Result<Option<IndexFilter>, RangeError>)
    ensures
        r == requested_filter(opt_str_view(raw)),
        r matches Ok(Some(filter)) ==> filter.wf(),
{
    let text = match raw {
        Some(text) => chars_of(text),
        None => {
            return Ok(None);
        },
    };
    let text = text.as_slice();
    let mut at: usize = 0;
    while at < text.len() && text[at] != '-'
        invariant
            at <= text.len(),
            forall|j: int| 0 <= j < at ==> #[trigger] text@[j] != dash(),
        decreases text.len() - at,
    {
        at += 1;
    }
    proof {
        lemma_prefix_len_unique(text@, other_than(dash()), at as nat);
    }
    if at < text.len() {
        let head = slice_subrange(text, 0, at);
        let tail = slice_subrange(text, at + 1, text.len());
        assert(head@ =~= text@.take(at as int));
        assert(tail@ =~= text@.skip(at + 1));
        let start = match number_in(head) {
            Ok(n) => n,
            Err(e) => {
                return Err(RangeError::Unparsable(e));
            },
        };
        let end = match number_in(tail) {
            Ok(n) => n,
            Err(e) => {
                return Err(RangeError::Unparsable(e));
            },
        };
        if start > end {
            return Err(RangeError::StartAfterEnd);
        }
        Ok(Some(IndexFilter::Range { start, end }))
    } else {
        match number_in(text) {
            Ok(n) => Ok(Some(IndexFilter::Single(n))),
            Err(e) => Err(RangeError::Unparsable(e)),
        }
    }
}

/// Reads what is wanted of the languages: nothing given asks for all
/// blocks, a flag without a value for the list of languages, and a value
/// for the blocks of that language, which is kept in lower case.
pub fn parse_lang_selector(arg: &Option<Option<String>>) -> (selector: LangSelector)
    ensures
        match *arg {
            None => selector is All,
            Some(None) => selector is List,
            Some(Some(lang)) => selector matches LangSelector::Filter(kept) && kept@ == lowercase(
                lang@,
            ),
        },
{
    match arg {
        None => LangSelector::All,
        Some(None) => LangSelector::List,
        Some(Some(lang)) => LangSelector::Filter(to_lowercase(lang.as_str())),
    }
}

/// The code of `c` with the upper-case letters `A` to `Z` moved onto their
/// lower-case forms.
pub open spec fn folded(c: char) -> int {
    if 'A' <= c <= 'Z' {
        c as int + 32
    } else {
        c as int
    }
}

/// Whether `a` and `b` are equal but for the case of the letters `A` to
/// `Z`.
pub open spec fn same_ignoring_ascii_case(a: Seq<char>, b: Seq<char>) -> bool {
    &&& a.len() == b.len()
    &&& forall|i: int| 0 <= i < a.len() ==> folded(#[trigger] a[i]) == folded(b[i])
}

/// Whether a block with the language tag `tag` is of the language `lang`.
/// A block without a tag is of no language.
pub open spec fn lang_matches(tag: Option<Seq<char>>, lang: Seq<char>) -> bool {
    tag matches Some(t) && same_ignoring_ascii_case(t, lang)
}

/// The predicate "is of the language `lang`".
pub open spec fn speaks(lang: Seq<char>) -> spec_fn(BlockView) -> bool {
    |b: BlockView| lang_matches(b.lang, lang)
}

/// The predicate "passes `filter`".
pub open spec fn by_index(filter: IndexFilter) -> spec_fn(BlockView) -> bool {
    |b: BlockView| filter.selects(b.index)
}

/// The predicate "is of the language `lang` and passes `filter`".
pub open spec fn speaks_and_passes(lang: Seq<char>, filter: IndexFilter) -> spec_fn(
    BlockView,
) -> bool {
    |b: BlockView| lang_matches(b.lang, lang) && filter.selects(b.index)
}

/// `blocks` after the language filter, if one is given, and then the index
/// filter, if one is given. The index filter goes by the indices that the
/// blocks already have.
pub open spec fn selected(
    blocks: Seq<BlockView>,
    language: Option<Seq<char>>,
    filter: Option<IndexFilter>,
) -> Seq<BlockView> {
    let of_language = match language {
        Some(lang) => blocks.filter(speaks(lang)),
        None => blocks,
    };
    match filter {
        Some(f) => of_language.filter(by_index(f)),
        None => of_language,
    }
}

/// Whether no two blocks have the same index.
pub open spec fn distinct_indices(blocks: Seq<BlockView>) -> bool {
    forall|i: int, j: int|
        0 <= i < j < blocks.len() ==> (#[trigger] blocks[i]).index != (#[trigger] blocks[j]).index
}

/// A filter keeps exactly the blocks that satisfy it, each as it was.
pub proof fn lemma_filter_keeps_exactly(
    blocks: Seq<BlockView>,
    pred: spec_fn(BlockView) -> bool,
    b: BlockView,
)
    ensures
        blocks.filter(pred).contains(b) <==> blocks.contains(b) && pred(b),
{
    broadcast use vstd::seq_lib::group_filter_ensures;

    if blocks.filter(pred).contains(b) {
        blocks.lemma_filter_contains_rev(pred, b);
        let k = choose|k: int| 0 <= k < blocks.filter(pred).len() && blocks.filter(pred)[k] == b;
        blocks.lemma_filter_pred(pred, k);
    }
    if blocks.contains(b) && pred(b) {
        let i = choose|i: int| 0 <= i < blocks.len() && blocks[i] == b;
        blocks.lemma_filter_contains(pred, i);
    }
}

/// Whether `kept` are the blocks of `blocks` at the positions `at`, which
/// rise.
pub open spec fn kept_at(blocks: Seq<BlockView>, kept: Seq<BlockView>, at: Seq<int>) -> bool {
    &&& at.len() == kept.len()
    &&& forall|k: int|
        0 <= k < at.len() ==> 0 <= #[trigger] at[k] < blocks.len() && blocks[at[k]] == kept[k]
    &&& forall|k: int, l: int| 0 <= k < l < at.len() ==> at[k] < at[l]
}

/// A filter keeps the order of the blocks: what it keeps are the blocks at
/// rising positions.
pub proof fn lemma_filter_keeps_order(blocks: Seq<BlockView>, pred: spec_fn(BlockView) -> bool)
    ensures
        exists|at: Seq<int>| kept_at(blocks, blocks.filter(pred), at),
    decreases blocks.len(),
{
    reveal(Seq::filter);
    if blocks.len() == 0 {
        assert(kept_at(blocks, blocks.filter(pred), Seq::<int>::empty()));
    } else {
        let front = blocks.drop_last();
        lemma_filter_keeps_order(front, pred);
        let at0 = choose|at: Seq<int>| kept_at(front, front.filter(pred), at);
        let at = if pred(blocks.last()) {
            at0.push(blocks.len() - 1)
        } else {
            at0
        };
        assert forall|k: int| 0 <= k < at.len() implies 0 <= #[trigger] at[k] < blocks.len()
            && blocks[at[k]] == blocks.filter(pred)[k] by {
            if k < at0.len() {
                assert(front[at0[k]] == front.filter(pred)[k]);
            }
        }
        assert forall|k: int, l: int| 0 <= k < l < at.len() implies at[k] < at[l] by {
            if l < at0.len() {
                assert(at0[k] < at0[l]);
            } else {
                assert(0 <= at0[k] < front.len());
            }
        }
        assert(kept_at(blocks, blocks.filter(pred), at));
    }
}

/// A filter leaves the indices distinct.
pub proof fn lemma_filter_keeps_distinct(blocks: Seq<BlockView>, pred: spec_fn(BlockView) -> bool)
    requires
        distinct_indices(blocks),
    ensures
        distinct_indices(blocks.filter(pred)),
{
    lemma_filter_keeps_order(blocks, pred);
    let kept = blocks.filter(pred);
    let at = choose|at: Seq<int>| kept_at(blocks, kept, at);
    assert forall|i: int, j: int| 0 <= i < j < kept.len() implies (#[trigger] kept[i]).index != (
    #[trigger] kept[j]).index by {
        assert(at[i] < at[j]);
        assert(blocks[at[i]] == kept[i]);
        assert(blocks[at[j]] == kept[j]);
    }
}

/// A single index selects at most one block, the one with that index,
/// however many blocks there are.
pub proof fn lemma_single_selects_at_most_one(blocks: Seq<BlockView>, n: usize)
    requires
        distinct_indices(blocks),
    ensures
        blocks.filter(by_index(IndexFilter::Single(n))).len() <= 1,
        forall|k: int|
            0 <= k < blocks.filter(by_index(IndexFilter::Single(n))).len() ==> (
            #[trigger] blocks.filter(by_index(IndexFilter::Single(n)))[k]).index == n,
{
    broadcast use vstd::seq_lib::group_filter_ensures;

    let pred = by_index(IndexFilter::Single(n));
    let kept = blocks.filter(pred);
    lemma_filter_keeps_distinct(blocks, pred);
    assert forall|k: int| 0 <= k < kept.len() implies (#[trigger] kept[k]).index == n by {
        blocks.lemma_filter_pred(pred, k);
    }
    if kept.len() > 1 {
        assert(kept[0].index == n);
        assert(kept[1].index == n);
    }
}

/// A range selects exactly the blocks whose index lies in it.
pub proof fn lemma_range_selects_exactly(
    blocks: Seq<BlockView>,
    start: usize,
    end: usize,
    b: BlockView,
)
    ensures
        blocks.filter(by_index(IndexFilter::Range { start, end })).contains(b) <==> blocks.contains(
            b,
        ) && start <= b.index <= end,
{
    lemma_filter_keeps_exactly(blocks, by_index(IndexFilter::Range { start, end }), b);
}

/// Filtering by language and then by index is filtering once by both: the
/// index filter sees the indices that the blocks had before the language
/// filter removed any.
pub proof fn lemma_filters_compose(blocks: Seq<BlockView>, lang: Seq<char>, filter: IndexFilter)
    ensures
        selected(blocks, Some(lang), Some(filter)) == blocks.filter(
            speaks_and_passes(lang, filter),
        ),
    decreases blocks.len(),
{
    reveal(Seq::filter);
    if blocks.len() > 0 {
        let front = blocks.drop_last();
        lemma_filters_compose(front, lang, filter);
        let of_language = front.filter(speaks(lang));
        if speaks(lang)(blocks.last()) {
            of_language.lemma_filter_push(blocks.last(), by_index(filter));
        }
    } else {
        assert(blocks.filter(speaks(lang)) =~= blocks);
    }
}

/// The code of `c` with upper-case ASCII letters moved onto lower case.
fn fold(c: char) -> (code: u32)
    ensures
        code == folded(c),
{
    if c >= 'A' && c <= 'Z' {
        c as u32 + 32
    } else {
        c as u32
    }
}

/// Whether `a` and `b` are equal but for the case of ASCII letters.
pub fn eq_ignoring_ascii_case(a: &[char], b: &[char]) -> (same: bool)
    ensures
        same == same_ignoring_ascii_case(a@, b@),
{
    if a.len() != b.len() {
        return false;
    }
    let mut i: usize = 0;
    while i < a.len()
        invariant
            a.len() == b.len(),
            i <= a.len(),
            forall|j: int| 0 <= j < i ==> folded(#[trigger] a@[j]) == folded(b@[j]),
        decreases a.len() - i,
    {
        if fold(a[i]) != fold(b[i]) {
            return false;
        }
        i += 1;
    }
    true
}

/// Whether `block` is of the language `lang`, whatever the case of its
/// ASCII letters.
pub fn matches_lang(block: &CodeBlock, lang: &str) -> (b: bool)
    ensures
        b == lang_matches(block@.lang, lang@),
{
    match &block.lang {
        Some(tag) => {
            let tag = chars_of(tag.as_str());
            let lang = chars_of(lang);
            eq_ignoring_ascii_case(tag.as_slice(), lang.as_slice())
        },
        None => false,
    }
}

/// The blocks of the language `lang`, in their order.
pub fn filter_by_lang(blocks: Vec<CodeBlock>, lang: &str) -> (kept: Vec<CodeBlock>)
    ensures
        block_views(kept@) == block_views(blocks@).filter(speaks(lang@)),
{
    let mut kept: Vec<CodeBlock> = Vec::new();
    let ghost all = blocks@;
    let ghost pred = speaks(lang@);
    proof {
        reveal(Seq::filter);
        assert(block_views(all.take(0)) =~= Seq::<BlockView>::empty());
        assert(block_views(kept@) =~= Seq::<BlockView>::empty());
    }
    for block in it: blocks
        invariant
            it.seq() == all,
            block_views(kept@) == block_views(all.take(it.index() as int)).filter(pred),
            pred == speaks(lang@),
    {
        proof {
            let seen = block_views(all.take(it.index() as int));
            assert(block_views(all.take(it.index() + 1)) =~= seen.push(block@));
            seen.lemma_filter_push(block@, pred);
            lemma_block_views_push(kept@, block);
        }
        if matches_lang(&block, lang) {
            kept.push(block);
        }
    }
    assert(all.take(all.len() as int) =~= all);
    kept
}

/// The blocks that pass `filter`, in their order. The blocks keep their
/// indices.
pub fn apply_index_filter(blocks: Vec<CodeBlock>, filter: IndexFilter) -> (kept: Vec<CodeBlock>)
    ensures
        block_views(kept@) == block_views(blocks@).filter(by_index(filter)),
{
    let mut kept: Vec<CodeBlock> = Vec::new();
    let ghost all = blocks@;
    let ghost pred = by_index(filter);
    proof {
        reveal(Seq::filter);
        assert(block_views(all.take(0)) =~= Seq::<BlockView>::empty());
        assert(block_views(kept@) =~= Seq::<BlockView>::empty());
    }
    for block in it: blocks
        invariant
            it.seq() == all,
            block_views(kept@) == block_views(all.take(it.index() as int)).filter(pred),
            pred == by_index(filter),
    {
        proof {
            let seen = block_views(all.take(it.index() as int));
            assert(block_views(all.take(it.index() + 1)) =~= seen.push(block@));
            seen.lemma_filter_push(block@, pred);
            lemma_block_views_push(kept@, block);
        }
        if filter.admits(block.index) {
            kept.push(block);
        }
    }
    assert(all.take(all.len() as int) =~= all);
    kept
}

/// The blocks of `language`, if one is given, that pass `index_filter`, if
/// one is given. A range that starts after its end is refused before
/// anything is filtered.
pub fn filter_blocks(
    blocks: Vec<CodeBlock>,
    language: Option<&str>,
    index_filter: Option<IndexFilter>,
) -> (r: Result<Vec<CodeBlock>, RangeError>)
    ensures
        match r {
            Ok(kept) => {
                &&& index_filter matches Some(f) ==> f.wf()
                &&& block_views(kept@) == selected(
                    block_views(blocks@),
                    opt_str_view(language),
                    index_filter,
                )
            },
            Err(e) => {
                &&& e == RangeError::StartAfterEnd
                &&& index_filter matches Some(f) && !f.wf()
            },
        },
{
    if let Some(IndexFilter::Range { start, end }) = index_filter {
        if start > end {
            return Err(RangeError::StartAfterEnd);
        }
    }
    let of_language = match language {
        Some(lang) => filter_by_lang(blocks, lang),
        None => blocks,
    };
    let kept = match index_filter {
        Some(filter) => apply_index_filter(of_language, filter),
        None => of_language,
    };
    Ok(kept)
}

} // verus!

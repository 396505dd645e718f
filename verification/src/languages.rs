//! The languages that occur among blocks, each once, in dictionary order.

use vstd::prelude::*;
use crate::block::{block_views, BlockView, CodeBlock};
use crate::lines::line_views;
use crate::text::{chars_of, string_of};

verus! {

/// Whether `a` comes before `b` in the dictionary: at the first place where
/// they differ `a` has the smaller character, or `a` ends there and `b`
/// does not.
pub open spec fn lex_less(a: Seq<char>, b: Seq<char>) -> bool
    decreases a.len(),
{
    if b.len() == 0 {
        false
    } else if a.len() == 0 {
        true
    } else if a[0] != b[0] {
        a[0] < b[0]
    } else {
        lex_less(a.skip(1), b.skip(1))
    }
}

/// Whether each text comes before the next one in the dictionary.
pub open spec fn strictly_rising(tags: Seq<Seq<char>>) -> bool {
    forall|i: int, j: int| 0 <= i < j < tags.len() ==> lex_less(#[trigger] tags[i], #[trigger] tags[j])
}

/// Whether some block has the language tag `tag`.
pub open spec fn names_language(blocks: Seq<BlockView>, tag: Seq<char>) -> bool {
    exists|k: int| 0 <= k < blocks.len() && (#[trigger] blocks[k]).lang == Some(tag)
}

/// The views of a sequence of strings.
pub open spec fn string_views(strings: Seq<String>) -> Seq<Seq<char>> {
    Seq::new(strings.len(), |i: int| strings[i]@)
}

/// How one text stands to another in the dictionary.
pub enum Place {
    Before,
    Same,
    After,
}

/// Dictionary order is transitive.
pub proof fn lemma_lex_less_transitive(a: Seq<char>, b: Seq<char>, c: Seq<char>)
    requires
        lex_less(a, b),
        lex_less(b, c),
    ensures
        lex_less(a, c),
    decreases a.len(),
{
    if a.len() > 0 && a[0] == b[0] && b[0] == c[0] {
        lemma_lex_less_transitive(a.skip(1), b.skip(1), c.skip(1));
    }
}

/// No text comes before itself.
pub proof fn lemma_lex_less_irreflexive(a: Seq<char>)
    ensures
        !lex_less(a, a),
    decreases a.len(),
{
    if a.len() > 0 {
        lemma_lex_less_irreflexive(a.skip(1));
    }
}

/// Texts that rise strictly hold no text twice.
pub proof fn lemma_rising_holds_nothing_twice(tags: Seq<Seq<char>>, i: int, j: int)
    requires
        strictly_rising(tags),
        0 <= i < j < tags.len(),
    ensures
        tags[i] != tags[j],
{
    lemma_lex_less_irreflexive(tags[i]);
}

/// Two texts that agree on their first `n` characters are in the order of
/// what follows.
proof fn lemma_lex_less_after_equal(a: Seq<char>, b: Seq<char>, n: int)
    requires
        0 <= n <= a.len(),
        n <= b.len(),
        forall|j: int| 0 <= j < n ==> a[j] == b[j],
    ensures
        lex_less(a, b) == lex_less(a.skip(n), b.skip(n)),
    decreases n,
{
    if n == 0 {
        assert(a.skip(0) =~= a);
        assert(b.skip(0) =~= b);
    } else {
        assert(a[0] == b[0]);
        assert forall|j: int| 0 <= j < n - 1 implies a.skip(1)[j] == b.skip(1)[j] by {
            assert(a[j + 1] == b[j + 1]);
        }
        lemma_lex_less_after_equal(a.skip(1), b.skip(1), n - 1);
        assert(a.skip(1).skip(n - 1) =~= a.skip(n));
        assert(b.skip(1).skip(n - 1) =~= b.skip(n));
    }
}

/// Where `a` stands to `b` in the dictionary.
pub fn place_of(a: &[char], b: &[char]) -> (place: Place)
    ensures
        place is Before <==> lex_less(a@, b@),
        place is Same <==> a@ == b@,
        place is After <==> lex_less(b@, a@),
{
    let mut i: usize = 0;
    while i < a.len() && i < b.len() && a[i] == b[i]
        invariant
            i <= a.len(),
            i <= b.len(),
            forall|j: int| 0 <= j < i ==> a@[j] == b@[j],
        decreases a.len() - i,
    {
        i += 1;
    }
    proof {
        lemma_lex_less_after_equal(a@, b@, i as int);
        lemma_lex_less_after_equal(b@, a@, i as int);
    }
    if i == a.len() && i == b.len() {
        assert(a@ =~= b@);
        Place::Same
    } else if i == a.len() {
        Place::Before
    } else if i == b.len() {
        Place::After
    } else {
        assert(a@.skip(i as int)[0] == a@[i as int]);
        assert(b@.skip(i as int)[0] == b@[i as int]);
        if a[i] < b[i] {
            Place::Before
        } else {
            Place::After
        }
    }
}

/// Puts `tag` into `sorted` at its place in the dictionary, unless it is
/// there already.
pub fn insert_sorted(sorted: &mut Vec<Vec<char>>, tag: Vec<char>)
    requires
        strictly_rising(line_views(old(sorted)@)),
    ensures
        strictly_rising(line_views(final(sorted)@)),
        forall|t: Seq<char>|
            line_views(final(sorted)@).contains(t) <==> line_views(old(sorted)@).contains(t) || t
                == tag@,
{
    let ghost before = line_views(sorted@);
    let mut at: usize = 0;
    let mut found = false;
    let mut stop = false;
    while at < sorted.len() && !stop
        invariant
            sorted@ == old(sorted)@,
            at <= sorted.len(),
            forall|j: int| 0 <= j < at ==> lex_less(#[trigger] sorted@[j]@, tag@),
            stop ==> at < sorted.len(),
            stop && found ==> sorted@[at as int]@ == tag@,
            stop && !found ==> lex_less(tag@, sorted@[at as int]@),
            found ==> stop,
        decreases sorted.len() - at + if stop { 0int } else { 1int },
    {
        match place_of(sorted[at].as_slice(), tag.as_slice()) {
            Place::Before => {
                at += 1;
            },
            Place::Same => {
                found = true;
                stop = true;
            },
            Place::After => {
                stop = true;
            },
        }
    }
    if found {
        assert(before[at as int] == tag@);
        return ;
    }
    let ghost word = tag@;
    sorted.insert(at, tag);
    proof {
        let after = line_views(sorted@);
        assert(after =~= before.insert(at as int, word));
        assert forall|i: int, j: int| 0 <= i < j < after.len() implies lex_less(
            #[trigger] after[i],
            #[trigger] after[j],
        ) by {
            if j < at {
                assert(lex_less(before[i], before[j]));
            } else if j == at {
                assert(after[i] == old(sorted)@[i]@);
            } else if i < at {
                assert(lex_less(before[i], before[j - 1]));
            } else if i == at {
                assert(lex_less(word, before[at as int]));
                if j - 1 > at {
                    assert(lex_less(before[at as int], before[j - 1]));
                    lemma_lex_less_transitive(word, before[at as int], before[j - 1]);
                }
            } else {
                assert(lex_less(before[i - 1], before[j - 1]));
            }
        }
        assert forall|t: Seq<char>| after.contains(t) <==> before.contains(t) || t == word by {
            if after.contains(t) {
                let k = choose|k: int| 0 <= k < after.len() && after[k] == t;
                if k < at {
                    assert(before[k] == t);
                } else if k > at {
                    assert(before[k - 1] == t);
                }
            }
            if before.contains(t) {
                let k = choose|k: int| 0 <= k < before.len() && before[k] == t;
                if k < at {
                    assert(after[k] == t);
                } else {
                    assert(after[k + 1] == t);
                }
            }
            if t == word {
                assert(after[at as int] == t);
            }
        }
    }
}

/// The languages of `blocks`, each once, in dictionary order. Blocks
/// without a language add nothing.
pub fn languages(blocks: &Vec<CodeBlock>) -> (tags: Vec<String>)
    ensures
        strictly_rising(string_views(tags@)),
        forall|t: Seq<char>|
            string_views(tags@).contains(t) <==> names_language(block_views(blocks@), t),
{
    let mut sorted: Vec<Vec<char>> = Vec::new();
    let mut i: usize = 0;
    while i < blocks.len()
        invariant
            i <= blocks.len(),
            strictly_rising(line_views(sorted@)),
            forall|t: Seq<char>|
                line_views(sorted@).contains(t) <==> names_language(
                    block_views(blocks@).take(i as int),
                    t,
                ),
        decreases blocks.len() - i,
    {
        let ghost seen = block_views(blocks@).take(i as int);
        let ghost next = block_views(blocks@).take(i + 1);
        let ghost had = line_views(sorted@);
        assert(next.drop_last() =~= seen);
        assert(next.last() == blocks@[i as int]@);
        match &blocks[i].lang {
            Some(lang) => {
                let tag = chars_of(lang.as_str());
                insert_sorted(&mut sorted, tag);
                assert forall|t: Seq<char>|
                    line_views(sorted@).contains(t) <==> names_language(next, t) by {
                    if names_language(next, t) {
                        let k = choose|k: int| 0 <= k < next.len() && (#[trigger] next[k]).lang
                            == Some(t);
                        if k < i {
                            assert(seen[k].lang == Some(t));
                        }
                    }
                    if had.contains(t) {
                        let k = choose|k: int| 0 <= k < seen.len() && (#[trigger] seen[k]).lang
                            == Some(t);
                        assert(next[k].lang == Some(t));
                    }
                    if t == lang@ {
                        assert(next[i as int].lang == Some(t));
                    }
                }
            },
            None => {
                assert forall|t: Seq<char>|
                    line_views(sorted@).contains(t) <==> names_language(next, t) by {
                    if names_language(next, t) {
                        let k = choose|k: int| 0 <= k < next.len() && (#[trigger] next[k]).lang
                            == Some(t);
                        assert(seen[k].lang == Some(t));
                    }
                    if had.contains(t) {
                        let k = choose|k: int| 0 <= k < seen.len() && (#[trigger] seen[k]).lang
                            == Some(t);
                        assert(next[k].lang == Some(t));
                    }
                }
            },
        }
        i += 1;
    }
    assert(block_views(blocks@).take(i as int) =~= block_views(blocks@));
    let mut tags: Vec<String> = Vec::new();
    let mut k: usize = 0;
    while k < sorted.len()
        invariant
            k <= sorted.len(),
            tags.len() == k,
            forall|j: int| 0 <= j < k ==> (#[trigger] tags@[j])@ == sorted@[j]@,
        decreases sorted.len() - k,
    {
        tags.push(string_of(sorted[k].as_slice()));
        k += 1;
    }
    assert(string_views(tags@) =~= line_views(sorted@));
    tags
}

} // verus!

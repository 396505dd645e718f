//! Blocks as text: raw or fenced, with or without line numbers, and as
//! entries of a list.

use vstd::prelude::*;
use crate::block::{block_views, clone_opt_string, BlockView, CodeBlock};
use crate::lines::{join, line_views, lines_of, newline, split_lines};
use crate::number::{decimal, push_decimal};
use crate::text::{append_chars, chars_of, string_of};

verus! {

/// Width of the column that holds a line number.
pub const NUMBER_WIDTH: usize = 6;

/// `n` blanks.
pub open spec fn blanks(n: nat) -> Seq<char> {
    Seq::new(n, |i: int| ' ')
}

/// `s` with blanks before it, so that it is at least `width` long.
pub open spec fn pad_left(s: Seq<char>, width: nat) -> Seq<char> {
    if s.len() >= width {
        s
    } else {
        blanks((width - s.len()) as nat) + s
    }
}

/// A line with its number before it: the number, right-aligned in six
/// columns, a colon, a blank and the line.
pub open spec fn numbered_line(line: Seq<char>, number: nat) -> Seq<char> {
    pad_left(decimal(number), NUMBER_WIDTH as nat) + seq![':', ' '] + line
}

/// `lines`, each with its number before it, the first with `start`.
pub open spec fn numbered_lines(lines: Seq<Seq<char>>, start: nat) -> Seq<Seq<char>> {
    Seq::new(lines.len(), |i: int| numbered_line(lines[i], (start + i) as nat))
}

/// `content` with a number before each of its lines, the first with
/// `start`. The lines are joined by line feeds.
pub open spec fn with_line_numbers(content: Seq<char>, start: nat) -> Seq<char> {
    join(numbered_lines(lines_of(content), start), seq![newline()])
}

/// The three backticks that open and close a block in fenced output.
pub open spec fn fence_mark() -> Seq<char> {
    seq!['`', '`', '`']
}

/// The text of an optional tag: nothing when it is absent.
pub open spec fn tag_or_nothing(tag: Option<Seq<char>>) -> Seq<char> {
    match tag {
        Some(t) => t,
        None => Seq::empty(),
    }
}

/// The number of the first line of a block: one when it is not known.
pub open spec fn first_line(block: BlockView) -> nat {
    match block.start_line {
        Some(n) => n,
        None => 1,
    }
}

/// The text of `block`: its code, with line numbers if wanted, and between
/// a fence that names its language and a closing fence if wanted.
pub open spec fn rendered(block: BlockView, fenced: bool, line_numbers: bool) -> Seq<char> {
    let content = if line_numbers {
        with_line_numbers(block.code, first_line(block))
    } else {
        block.code
    };
    if fenced {
        fence_mark() + tag_or_nothing(block.lang) + seq![newline()] + content + seq![newline()]
            + fence_mark()
    } else {
        content
    }
}

/// The texts of `blocks`.
pub open spec fn rendered_all(blocks: Seq<BlockView>, fenced: bool, line_numbers: bool) -> Seq<
    Seq<char>,
> {
    Seq::new(blocks.len(), |i: int| rendered(blocks[i], fenced, line_numbers))
}

/// Whether `s` ends in a line feed.
pub open spec fn ends_in_newline(s: Seq<char>) -> bool {
    s.len() > 0 && s.last() == newline()
}

/// The texts of `blocks` joined by `separator`. If there is a block and the
/// separator does not end in a line feed, a line feed ends the output.
pub open spec fn raw_output(
    blocks: Seq<BlockView>,
    fenced: bool,
    line_numbers: bool,
    separator: Seq<char>,
) -> Seq<char> {
    let joined = join(rendered_all(blocks, fenced, line_numbers), separator);
    if blocks.len() > 0 && !ends_in_newline(separator) {
        joined + seq![newline()]
    } else {
        joined
    }
}

/// The word that stands for a block without a language.
pub open spec fn plain() -> Seq<char> {
    seq!['p', 'l', 'a', 'i', 'n']
}

/// Where a block was found: its source, and with line numbers the line of
/// its text, or the first and last line when they differ.
pub open spec fn location(block: BlockView, line_numbers: bool) -> Seq<char> {
    if !line_numbers {
        block.source
    } else {
        match (block.start_line, block.end_line) {
            (Some(start), Some(end)) => if start != end {
                block.source + seq![':'] + decimal(start) + seq!['-'] + decimal(end)
            } else {
                block.source + seq![':'] + decimal(start)
            },
            (Some(line), None) => block.source + seq![':'] + decimal(line),
            (None, _) => block.source,
        }
    }
}

/// The entry of `block` in a list: index, language or `plain`, number of
/// lines and location.
pub open spec fn list_entry(block: BlockView, line_numbers: bool) -> Seq<char> {
    decimal(block.index) + seq![':', ' '] + match block.lang {
        Some(lang) => lang,
        None => plain(),
    } + seq![' ', '('] + decimal(lines_of(block.code).len()) + seq![
        ' ',
        'l',
        'i',
        'n',
        'e',
        's',
        ')',
        ' ',
        '[',
    ] + location(block, line_numbers) + seq![']']
}

/// `block` as it is handed on for structured output: without its line
/// numbers unless they are wanted.
pub open spec fn structured(block: BlockView, line_numbers: bool) -> BlockView {
    BlockView {
        index: block.index,
        source: block.source,
        kind: block.kind,
        lang: block.lang,
        start_line: if line_numbers {
            block.start_line
        } else {
            None
        },
        end_line: if line_numbers {
            block.end_line
        } else {
            None
        },
        code: block.code,
    }
}

/// The number of lines of `content`.
pub fn line_count(content: &str) -> (n: usize)
    ensures
        n == lines_of(content@).len(),
{
    let text = chars_of(content);
    let lines = split_lines(text.as_slice());
    assert(line_views(lines@).len() == lines@.len());
    lines.len()
}

/// Appends the numeral of `n` to `out`, after as many blanks as it takes
/// to fill `width` columns.
fn push_padded(out: &mut Vec<char>, n: u128, width: usize)
    ensures
        final(out)@ == old(out)@ + pad_left(decimal(n as nat), width as nat),
{
    let mut digits: Vec<char> = Vec::new();
    push_decimal(&mut digits, n);
    assert(digits@ =~= decimal(n as nat));
    let mut k: usize = digits.len();
    assert(out@ =~= old(out)@ + blanks(0));
    while k < width
        invariant
            digits.len() <= k,
            k <= width || k == digits.len(),
            out@ == old(out)@ + blanks((k - digits.len()) as nat),
        decreases width - k,
    {
        out.push(' ');
        assert(blanks((k - digits.len()) as nat).push(' ') =~= blanks((k + 1 - digits.len()) as nat));
        assert(out@ =~= old(out)@ + blanks((k + 1 - digits.len()) as nat));
        k += 1;
    }
    append_chars(out, digits.as_slice());
    assert(out@ =~= old(out)@ + pad_left(decimal(n as nat), width as nat));
}

/// Appends `lines` to `out`, each with its number before it, joined by
/// line feeds.
fn push_numbered(out: &mut Vec<char>, lines: &Vec<Vec<char>>, start_line: usize)
    ensures
        final(out)@ == old(out)@ + join(
            numbered_lines(line_views(lines@), start_line as nat),
            seq![newline()],
        ),
{
    let ghost parts = numbered_lines(line_views(lines@), start_line as nat);
    let ghost sep = seq![newline()];
    let mut i: usize = 0;
    assert(out@ =~= old(out)@ + join(parts.take(0), sep));
    while i < lines.len()
        invariant
            i <= lines.len(),
            parts == numbered_lines(line_views(lines@), start_line as nat),
            sep == seq![newline()],
            out@ == old(out)@ + join(parts.take(i as int), sep),
        decreases lines.len() - i,
    {
        let ghost before = out@;
        if i > 0 {
            out.push('\n');
        }
        push_padded(out, start_line as u128 + i as u128, NUMBER_WIDTH);
        out.push(':');
        out.push(' ');
        append_chars(out, lines[i].as_slice());
        proof {
            assert(parts.take(i + 1).drop_last() =~= parts.take(i as int));
            assert(parts.take(i + 1).last() == parts[i as int]);
            assert(parts[i as int] == numbered_line(lines@[i as int]@, (start_line + i) as nat));
            if i > 0 {
                assert(out@ =~= before + sep + parts[i as int]);
                assert(before + sep + parts[i as int] =~= old(out)@ + (join(
                    parts.take(i as int),
                    sep,
                ) + sep + parts[i as int]));
            } else {
                assert(out@ =~= before + parts[i as int]);
                assert(join(parts.take(0), sep) =~= Seq::<char>::empty());
                assert(before + parts[i as int] =~= old(out)@ + parts[i as int]);
                assert(parts.take(1)[0] == parts[0]);
            }
        }
        i += 1;
    }
    assert(parts.take(i as int) =~= parts);
}

/// `content` with a number before each of its lines, the first with
/// `start_line`.
pub fn add_line_numbers(content: &str, start_line: usize) -> (s: String)
    ensures
        s@ == with_line_numbers(content@, start_line as nat),
{
    let text = chars_of(content);
    let lines = split_lines(text.as_slice());
    let mut out: Vec<char> = Vec::new();
    push_numbered(&mut out, &lines, start_line);
    assert(out@ =~= with_line_numbers(content@, start_line as nat));
    string_of(out.as_slice())
}

/// Appends the text of `block` to `out`.
fn push_rendered(out: &mut Vec<char>, block: &CodeBlock, fenced: bool, line_numbers: bool)
    ensures
        final(out)@ == old(out)@ + rendered(block@, fenced, line_numbers),
{
    let code = chars_of(block.code.as_str());
    if fenced {
        out.push('`');
        out.push('`');
        out.push('`');
        match &block.lang {
            Some(lang) => {
                let lang = chars_of(lang.as_str());
                append_chars(out, lang.as_slice());
            },
            None => {},
        }
        out.push('\n');
    }
    let ghost head = out@;
    if line_numbers {
        let start = match block.start_line {
            Some(n) => n,
            None => 1,
        };
        let lines = split_lines(code.as_slice());
        push_numbered(out, &lines, start);
    } else {
        append_chars(out, code.as_slice());
    }
    let ghost content = if line_numbers {
        with_line_numbers(block@.code, first_line(block@))
    } else {
        block@.code
    };
    assert(out@ == head + content);
    if fenced {
        out.push('\n');
        out.push('`');
        out.push('`');
        out.push('`');
        assert(head =~= old(out)@ + (fence_mark() + tag_or_nothing(block@.lang) + seq![newline()]));
        assert(out@ =~= old(out)@ + (fence_mark() + tag_or_nothing(block@.lang) + seq![newline()]
            + content + seq![newline()] + fence_mark()));
    }
}

/// The text of `block`: its code, with line numbers if wanted, and between
/// fences if wanted.
pub fn render_block(block: &CodeBlock, fenced: bool, line_numbers: bool) -> (s: String)
    ensures
        s@ == rendered(block@, fenced, line_numbers),
{
    let mut out: Vec<char> = Vec::new();
    push_rendered(&mut out, block, fenced, line_numbers);
    assert(out@ =~= rendered(block@, fenced, line_numbers));
    string_of(out.as_slice())
}

/// The texts of `blocks` joined by `separator`, ended by a line feed unless
/// the separator ends in one or there is no block.
pub fn render_raw(blocks: &Vec<CodeBlock>, fenced: bool, line_numbers: bool, separator: &str) -> (s:
    String)
    ensures
        s@ == raw_output(block_views(blocks@), fenced, line_numbers, separator@),
{
    let sep = chars_of(separator);
    let ghost parts = rendered_all(block_views(blocks@), fenced, line_numbers);
    let mut out: Vec<char> = Vec::new();
    let mut i: usize = 0;
    assert(out@ =~= join(parts.take(0), sep@));
    while i < blocks.len()
        invariant
            i <= blocks.len(),
            sep@ == separator@,
            parts == rendered_all(block_views(blocks@), fenced, line_numbers),
            out@ == join(parts.take(i as int), sep@),
        decreases blocks.len() - i,
    {
        let ghost before = out@;
        if i > 0 {
            append_chars(&mut out, sep.as_slice());
        }
        push_rendered(&mut out, &blocks[i], fenced, line_numbers);
        proof {
            assert(parts.take(i + 1).drop_last() =~= parts.take(i as int));
            assert(parts.take(i + 1).last() == parts[i as int]);
            assert(block_views(blocks@)[i as int] == blocks@[i as int]@);
            if i == 0 {
                assert(before =~= Seq::<char>::empty());
                assert(out@ =~= parts[0]);
                assert(parts.take(1)[0] == parts[0]);
            }
        }
        i += 1;
    }
    assert(parts.take(i as int) =~= parts);
    let n = sep.len();
    if blocks.len() > 0 && !(n > 0 && sep[n - 1] == '\n') {
        out.push('\n');
    }
    assert(out@ =~= raw_output(block_views(blocks@), fenced, line_numbers, separator@));
    string_of(out.as_slice())
}

/// Appends the characters of `s` to `out`.
fn push_str(out: &mut Vec<char>, s: &str)
    ensures
        final(out)@ == old(out)@ + s@,
{
    let chars = chars_of(s);
    append_chars(out, chars.as_slice());
}

/// The entry of `block` in a list: index, language or `plain`, number of
/// lines and location.
pub fn list_line(block: &CodeBlock, include_line_numbers: bool) -> (s: String)
    ensures
        s@ == list_entry(block@, include_line_numbers),
{
    let mut out: Vec<char> = Vec::new();
    push_decimal(&mut out, block.index as u128);
    out.push(':');
    out.push(' ');
    match &block.lang {
        Some(lang) => {
            push_str(&mut out, lang.as_str());
        },
        None => {
            out.push('p');
            out.push('l');
            out.push('a');
            out.push('i');
            out.push('n');
        },
    }
    let ghost head = out@;
    assert(head =~= decimal(block@.index) + seq![':', ' '] + match block@.lang {
        Some(lang) => lang,
        None => plain(),
    });
    out.push(' ');
    out.push('(');
    push_decimal(&mut out, line_count(block.code.as_str()) as u128);
    out.push(' ');
    out.push('l');
    out.push('i');
    out.push('n');
    out.push('e');
    out.push('s');
    out.push(')');
    out.push(' ');
    out.push('[');
    let ghost middle = out@;
    assert(middle =~= head + seq![' ', '('] + decimal(lines_of(block@.code).len()) + seq![
        ' ',
        'l',
        'i',
        'n',
        'e',
        's',
        ')',
        ' ',
        '[',
    ]);
    push_str(&mut out, block.source.as_str());
    if include_line_numbers {
        match block.start_line {
            Some(start) => {
                out.push(':');
                push_decimal(&mut out, start as u128);
                match block.end_line {
                    Some(end) => {
                        if start != end {
                            out.push('-');
                            push_decimal(&mut out, end as u128);
                        }
                    },
                    None => {},
                }
            },
            None => {},
        }
    }
    assert(out@ =~= middle + location(block@, include_line_numbers));
    out.push(']');
    assert(out@ =~= list_entry(block@, include_line_numbers));
    string_of(out.as_slice())
}

/// `block` as it is handed on for structured output: without its line
/// numbers unless they are wanted.
pub fn for_structured_output(block: &CodeBlock, include_line_numbers: bool) -> (r: CodeBlock)
    ensures
        r@ == structured(block@, include_line_numbers),
{
    CodeBlock {
        index: block.index,
        source: block.source.clone(),
        kind: block.kind,
        lang: clone_opt_string(&block.lang),
        start_line: if include_line_numbers {
            block.start_line
        } else {
            None
        },
        end_line: if include_line_numbers {
            block.end_line
        } else {
            None
        },
        code: block.code.clone(),
    }
}

} // verus!

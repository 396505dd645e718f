use mdcode::block::{BlockKind, CodeBlock};
use mdcode::languages::languages;
use mdcode::render::{
    add_line_numbers, for_structured_output, line_count, list_line, render_block, render_raw,
};

fn block(index: usize, lang: Option<&str>, start: usize, end: usize, code: &str) -> CodeBlock {
    CodeBlock {
        index,
        source: "file.md".to_string(),
        kind: BlockKind::Fenced,
        lang: lang.map(|l| l.to_string()),
        start_line: Some(start),
        end_line: Some(end),
        code: code.to_string(),
    }
}

#[test]
fn counts_lines() {
    assert_eq!(line_count(""), 0);
    assert_eq!(line_count("a"), 1);
    assert_eq!(line_count("a\n"), 1);
    assert_eq!(line_count("a\nb"), 2);
    assert_eq!(line_count("\n"), 1);
    assert_eq!(line_count("\n\n"), 2);
    assert_eq!(line_count("a\r\nb\r\n"), 2);
}

#[test]
fn numbers_are_right_aligned_in_six_columns() {
    assert_eq!(add_line_numbers("x", 1), "     1: x");
    assert_eq!(add_line_numbers("x\ny", 9), "     9: x\n    10: y");
    assert_eq!(add_line_numbers("x", 0), "     0: x");
    assert_eq!(add_line_numbers("x", 123456), "123456: x");
    assert_eq!(add_line_numbers("x\ny", 999999), "999999: x\n1000000: y");
    assert_eq!(add_line_numbers("", 5), "");
    assert_eq!(add_line_numbers("a\n\nb\n", 1), "     1: a\n     2: \n     3: b");
}

#[test]
fn line_numbers_do_not_wrap_around() {
    assert_eq!(
        add_line_numbers("x\ny", usize::MAX),
        format!("{}: x\n{}: y", usize::MAX, usize::MAX as u128 + 1)
    );
}

#[test]
fn numbering_agrees_with_standard_formatting() {
    for n in [0usize, 7, 10, 99, 100, 65535, 1234567] {
        assert_eq!(add_line_numbers("line", n), format!("{:>6}: {}", n, "line"));
    }
}

#[test]
fn renders_raw_and_fenced() {
    let b = block(0, Some("rs"), 3, 4, "let a;\nlet b;");
    assert_eq!(render_block(&b, false, false), "let a;\nlet b;");
    assert_eq!(render_block(&b, true, false), "```rs\nlet a;\nlet b;\n```");
    assert_eq!(render_block(&b, false, true), "     3: let a;\n     4: let b;");
    let untagged = block(0, None, 3, 3, "x");
    assert_eq!(render_block(&untagged, true, false), "```\nx\n```");
    let empty = block(0, Some(""), 3, 3, "");
    assert_eq!(render_block(&empty, true, true), "```\n\n```");
}

#[test]
fn line_numbers_start_at_one_when_unknown() {
    let mut b = block(0, None, 1, 1, "x\ny");
    b.start_line = None;
    assert_eq!(render_block(&b, false, true), "     1: x\n     2: y");
}

#[test]
fn joins_blocks_with_separator() {
    let blocks = vec![block(0, None, 1, 1, "a"), block(1, None, 2, 2, "b")];
    assert_eq!(render_raw(&blocks, false, false, "\n"), "a\nb");
    assert_eq!(render_raw(&blocks, false, false, "--"), "a--b\n");
    assert_eq!(render_raw(&blocks, false, false, ""), "ab\n");
    assert_eq!(render_raw(&blocks, false, false, "\n---\n"), "a\n---\nb");
    assert_eq!(render_raw(&blocks, true, false, "\n"), "```\na\n```\n```\nb\n```");
    assert_eq!(render_raw(&vec![blocks[0].clone()], false, true, "+"), "     1: a\n");
    assert_eq!(render_raw(&Vec::new(), false, false, "--"), "");
}

#[test]
fn list_entries() {
    let b = block(12, Some("rs"), 3, 4, "let a;\nlet b;");
    assert_eq!(list_line(&b, false), "12: rs (2 lines) [file.md]");
    assert_eq!(list_line(&b, true), "12: rs (2 lines) [file.md:3-4]");
    let one = block(0, None, 5, 5, "x");
    assert_eq!(list_line(&one, true), "0: plain (1 lines) [file.md:5]");
    let empty = block(1, None, 5, 4, "");
    assert_eq!(list_line(&empty, true), "1: plain (0 lines) [file.md:5-4]");
    let mut unknown = block(2, None, 1, 1, "x");
    unknown.start_line = None;
    assert_eq!(list_line(&unknown, true), "2: plain (1 lines) [file.md]");
    let mut open = block(3, None, 8, 1, "x");
    open.end_line = None;
    assert_eq!(list_line(&open, true), "3: plain (1 lines) [file.md:8]");
}

#[test]
fn structured_output_drops_line_numbers_unless_wanted() {
    let b = block(4, Some("rs"), 3, 4, "code");
    let with = for_structured_output(&b, true);
    assert_eq!(with.start_line, Some(3));
    assert_eq!(with.end_line, Some(4));
    let without = for_structured_output(&b, false);
    assert_eq!(without.start_line, None);
    assert_eq!(without.end_line, None);
    assert_eq!(without.index, 4);
    assert_eq!(without.source, "file.md");
    assert_eq!(without.kind, BlockKind::Fenced);
    assert_eq!(without.lang.as_deref(), Some("rs"));
    assert_eq!(without.code, "code");
}

#[test]
fn languages_are_sorted_and_unique() {
    let blocks = vec![
        block(0, Some("rust"), 1, 1, ""),
        block(1, None, 1, 1, ""),
        block(2, Some("c"), 1, 1, ""),
        block(3, Some("rust"), 1, 1, ""),
        block(4, Some("Rust"), 1, 1, ""),
        block(5, Some("cpp"), 1, 1, ""),
        block(6, Some("é"), 1, 1, ""),
        block(7, Some("z"), 1, 1, ""),
    ];
    assert_eq!(languages(&blocks), vec!["Rust", "c", "cpp", "rust", "z", "é"]);
    assert!(languages(&Vec::new()).is_empty());
}

#[test]
fn language_order_is_that_of_strings() {
    let tags = ["b", "a", "ab", "", "B", "a b", "ä", "a\u{10000}", "a\u{ffff}", "~"];
    let blocks: Vec<CodeBlock> = tags
        .iter()
        .enumerate()
        .map(|(i, t)| block(i, Some(t), 1, 1, ""))
        .collect();
    let mut expected: Vec<String> = tags.iter().map(|t| t.to_string()).collect();
    expected.sort();
    assert_eq!(languages(&blocks), expected);
}

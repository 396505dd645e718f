use mdcode::block::{BlockKind, InputSource};
use mdcode::collect::collect_blocks;
use mdcode::document::parse_blocks;
use mdcode::fence::{is_closing_fence, parse_fence_start};

fn doc(content: &str) -> InputSource {
    InputSource {
        name: "doc.md".to_string(),
        content: content.to_string(),
    }
}

#[test]
fn opening_fence_gives_glyph_run_and_tag() {
    assert_eq!(
        parse_fence_start("```rust"),
        Some(('`', 3, Some("rust".to_string())))
    );
    assert_eq!(parse_fence_start("~~~~"), Some(('~', 4, None)));
    assert_eq!(
        parse_fence_start("  `````  Py Thon \t"),
        Some(('`', 5, Some("Py Thon".to_string())))
    );
}

#[test]
fn short_or_mixed_runs_open_nothing() {
    assert_eq!(parse_fence_start("``rust"), None);
    assert_eq!(parse_fence_start("~~"), None);
    assert_eq!(parse_fence_start("`~`~"), None);
    assert_eq!(parse_fence_start("text ```"), None);
    assert_eq!(parse_fence_start(""), None);
}

#[test]
fn leading_white_space_of_any_kind_is_skipped() {
    assert_eq!(parse_fence_start("\t\u{a0}\u{3000}```"), Some(('`', 3, None)));
    assert!(is_closing_fence(" \t```", '`', 3));
}

#[test]
fn tag_after_run_keeps_later_fence_glyphs() {
    assert_eq!(
        parse_fence_start("```a`b"),
        Some(('`', 3, Some("a`b".to_string())))
    );
    assert_eq!(
        parse_fence_start("~~~```"),
        Some(('~', 3, Some("```".to_string())))
    );
}

#[test]
fn closing_run_must_be_long_enough() {
    assert!(is_closing_fence("```", '`', 3));
    assert!(is_closing_fence("`````", '`', 3));
    assert!(is_closing_fence("````", '`', 4));
    assert!(!is_closing_fence("```", '`', 4));
    assert!(!is_closing_fence("``", '`', 2));
    assert!(!is_closing_fence("``", '`', 1));
    assert!(is_closing_fence("```trailing", '`', 3));
}

#[test]
fn other_glyph_never_closes() {
    assert!(!is_closing_fence("~~~", '`', 3));
    assert!(!is_closing_fence("~~~~~~~~~~", '`', 3));
    assert!(!is_closing_fence("``````", '~', 3));
}

#[test]
fn longer_closing_run_ends_block() {
    let blocks = parse_blocks(&doc("```\na\n`````\nafter\n"), false);
    assert_eq!(blocks.len(), 1);
    assert_eq!(blocks[0].code, "a");
    assert_eq!(blocks[0].start_line, Some(2));
    assert_eq!(blocks[0].end_line, Some(2));
}

#[test]
fn shorter_run_is_body_text() {
    let blocks = parse_blocks(&doc("````\na\n```\nb\n````\n"), false);
    assert_eq!(blocks.len(), 1);
    assert_eq!(blocks[0].code, "a\n```\nb");
    assert_eq!(blocks[0].start_line, Some(2));
    assert_eq!(blocks[0].end_line, Some(4));
}

#[test]
fn tilde_run_is_body_of_backtick_fence() {
    let blocks = parse_blocks(&doc("```\n~~~~~~\n```\n"), false);
    assert_eq!(blocks.len(), 1);
    assert_eq!(blocks[0].code, "~~~~~~");
    let blocks = parse_blocks(&doc("~~~sh\n```\nls\n```\n~~~\n"), false);
    assert_eq!(blocks.len(), 1);
    assert_eq!(blocks[0].lang.as_deref(), Some("sh"));
    assert_eq!(blocks[0].code, "```\nls\n```");
}

#[test]
fn one_trailing_line_feed_is_stripped() {
    let blocks = parse_blocks(&doc("```\na\n\n\n```\n"), false);
    assert_eq!(blocks.len(), 1);
    assert_eq!(blocks[0].code, "a\n\n");
    assert_eq!(blocks[0].end_line, Some(4));
}

#[test]
fn inner_blank_lines_are_kept() {
    let blocks = parse_blocks(&doc("```\n\na\n\nb\n```"), false);
    assert_eq!(blocks[0].code, "\na\n\nb");
}

#[test]
fn empty_fence_has_empty_code() {
    let blocks = parse_blocks(&doc("```\n```\n"), false);
    assert_eq!(blocks.len(), 1);
    assert_eq!(blocks[0].code, "");
    assert_eq!(blocks[0].start_line, Some(2));
    assert_eq!(blocks[0].end_line, Some(1));
}

#[test]
fn opener_on_last_line_is_an_empty_block() {
    let blocks = parse_blocks(&doc("text\n```go"), false);
    assert_eq!(blocks.len(), 1);
    assert_eq!(blocks[0].kind, BlockKind::Fenced);
    assert_eq!(blocks[0].lang.as_deref(), Some("go"));
    assert_eq!(blocks[0].code, "");
    assert_eq!(blocks[0].start_line, Some(3));
    assert_eq!(blocks[0].end_line, Some(2));
}

#[test]
fn unterminated_fence_ends_on_last_line() {
    let blocks = parse_blocks(&doc("intro\n\n~~~\none\ntwo\nthree"), true);
    assert_eq!(blocks.len(), 1);
    assert_eq!(blocks[0].code, "one\ntwo\nthree");
    assert_eq!(blocks[0].start_line, Some(4));
    assert_eq!(blocks[0].end_line, Some(6));
}

#[test]
fn carriage_returns_before_line_feeds_are_dropped() {
    let blocks = parse_blocks(&doc("```c\r\nint x;\r\nint y;\r\n```\r\n"), false);
    assert_eq!(blocks.len(), 1);
    assert_eq!(blocks[0].lang.as_deref(), Some("c"));
    assert_eq!(blocks[0].code, "int x;\nint y;");
}

#[test]
fn several_fences_in_one_document() {
    let blocks = parse_blocks(&doc("```a\n1\n```\ntext\n~~~b\n2\n3\n~~~\n```\n4"), false);
    assert_eq!(blocks.len(), 3);
    assert_eq!(blocks[0].lang.as_deref(), Some("a"));
    assert_eq!(blocks[0].code, "1");
    assert_eq!(blocks[1].lang.as_deref(), Some("b"));
    assert_eq!(blocks[1].code, "2\n3");
    assert_eq!(blocks[1].start_line, Some(6));
    assert_eq!(blocks[1].end_line, Some(7));
    assert_eq!(blocks[2].lang, None);
    assert_eq!(blocks[2].code, "4");
    assert_eq!(blocks[2].end_line, Some(10));
    assert!(blocks.iter().all(|b| b.index == 0 && b.source == "doc.md"));
}

#[test]
fn empty_document_has_no_blocks() {
    assert!(parse_blocks(&doc(""), true).is_empty());
    assert!(collect_blocks(vec![], true).is_empty());
}

#[test]
fn parsing_twice_gives_the_same_blocks() {
    let text = "a `b`\n```x\ny\n```\n`c` d";
    let first = parse_blocks(&doc(text), true);
    let second = parse_blocks(&doc(text), true);
    assert_eq!(first.len(), second.len());
    for (a, b) in first.iter().zip(second.iter()) {
        assert_eq!(a.code, b.code);
        assert_eq!(a.kind, b.kind);
        assert_eq!(a.lang, b.lang);
        assert_eq!(a.start_line, b.start_line);
        assert_eq!(a.end_line, b.end_line);
    }
}

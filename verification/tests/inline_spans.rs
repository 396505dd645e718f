use mdcode::block::{BlockKind, InputSource};
use mdcode::document::parse_blocks;
use mdcode::inline::parse_inline_blocks;

fn codes(line: &str) -> Vec<String> {
    parse_inline_blocks(line, 7, "notes.md")
        .into_iter()
        .map(|b| b.code)
        .collect()
}

#[test]
fn spans_carry_line_and_source() {
    let blocks = parse_inline_blocks("a `one` b `two`", 7, "notes.md");
    assert_eq!(blocks.len(), 2);
    for b in &blocks {
        assert_eq!(b.kind, BlockKind::Inline);
        assert_eq!(b.lang, None);
        assert_eq!(b.start_line, Some(7));
        assert_eq!(b.end_line, Some(7));
        assert_eq!(b.source, "notes.md");
        assert_eq!(b.index, 0);
    }
    assert_eq!(blocks[0].code, "one");
    assert_eq!(blocks[1].code, "two");
}

#[test]
fn runs_of_other_length_are_span_text() {
    assert_eq!(codes("``a`b``"), vec!["a`b".to_string()]);
    assert_eq!(codes("` `` `"), vec![" `` ".to_string()]);
    assert_eq!(codes("```x``y`z```"), vec!["x``y`z".to_string()]);
}

#[test]
fn span_text_is_not_trimmed() {
    assert_eq!(codes("` a `"), vec![" a ".to_string()]);
}

#[test]
fn unterminated_span_yields_nothing() {
    assert!(codes("a `b").is_empty());
    assert!(codes("``a`").is_empty());
    assert!(codes("````").is_empty());
    assert!(codes("").is_empty());
    assert!(codes("no ticks").is_empty());
}

#[test]
fn closed_span_then_dangling_opener() {
    assert_eq!(codes("`a` `b"), vec!["a".to_string()]);
}

#[test]
fn spans_with_wide_characters() {
    assert_eq!(codes("é `ü→` ß"), vec!["ü→".to_string()]);
}

#[test]
fn open_span_does_not_reach_the_next_line() {
    let input = InputSource {
        name: "n.md".to_string(),
        content: "a `b\nc` d `e`".to_string(),
    };
    let blocks = parse_blocks(&input, true);
    assert_eq!(blocks.len(), 1);
    assert_eq!(blocks[0].code, " d ");
    assert_eq!(blocks[0].start_line, Some(2));
    assert_eq!(blocks[0].end_line, Some(2));
}

#[test]
fn no_inline_spans_inside_a_fence() {
    let input = InputSource {
        name: "n.md".to_string(),
        content: "`a`\n```\n`b`\n```\n`c`".to_string(),
    };
    let blocks = parse_blocks(&input, true);
    assert_eq!(blocks.len(), 3);
    assert_eq!(blocks[0].kind, BlockKind::Inline);
    assert_eq!(blocks[0].code, "a");
    assert_eq!(blocks[1].kind, BlockKind::Fenced);
    assert_eq!(blocks[1].code, "`b`");
    assert_eq!(blocks[2].kind, BlockKind::Inline);
    assert_eq!(blocks[2].code, "c");
    assert_eq!(blocks[2].start_line, Some(5));
}

#[test]
fn without_inline_only_fenced_blocks() {
    let input = InputSource {
        name: "n.md".to_string(),
        content: "`a`\n```\n`b`\n```\n`c`".to_string(),
    };
    let blocks = parse_blocks(&input, false);
    assert_eq!(blocks.len(), 1);
    assert_eq!(blocks[0].kind, BlockKind::Fenced);
}

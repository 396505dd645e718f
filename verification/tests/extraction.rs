use mdcode::block::{BlockKind, CodeBlock, InputSource};
use mdcode::collect::collect_blocks;
use mdcode::render::render_block;
use mdcode::select::{matches_lang, parse_index_filter, IndexFilter};

fn input(name: &str, content: &str) -> InputSource {
    InputSource {
        name: name.to_string(),
        content: content.to_string(),
    }
}

#[test]
fn parses_fenced_block_with_lang() {
    let blocks = collect_blocks(
        vec![input("file.md", "```rust\nfn main() {}\n```\n")],
        false,
    );
    assert_eq!(blocks.len(), 1);
    let b = &blocks[0];
    assert_eq!(b.source, "file.md");
    assert_eq!(b.kind, BlockKind::Fenced);
    assert_eq!(b.lang.as_deref(), Some("rust"));
    assert_eq!(b.code, "fn main() {}");
    assert_eq!(b.start_line, Some(2));
    assert_eq!(b.end_line, Some(2));
    assert_eq!(b.index, 0);
}

#[test]
fn parses_inline_blocks_when_enabled() {
    let blocks = collect_blocks(vec![input("file.md", "a `one` b `two`")], true);
    assert_eq!(blocks.len(), 2);
    assert!(blocks.iter().all(|b| b.kind == BlockKind::Inline));
    assert_eq!(blocks[0].code, "one");
    assert_eq!(blocks[1].code, "two");
    assert_eq!(blocks[0].start_line, Some(1));
    assert_eq!(blocks[1].start_line, Some(1));
}

#[test]
fn ignores_inline_when_flag_disabled() {
    let blocks = collect_blocks(vec![input("file.md", "a `one` b `two`")], false);
    assert!(blocks.is_empty());
}

#[test]
fn handles_unterminated_fence() {
    let blocks = collect_blocks(vec![input("file.md", "```js\nconsole.log('x');")], false);
    assert_eq!(blocks.len(), 1);
    let b = &blocks[0];
    assert_eq!(b.kind, BlockKind::Fenced);
    assert_eq!(b.lang.as_deref(), Some("js"));
    assert_eq!(b.start_line, Some(2));
    assert_eq!(b.end_line, Some(2));
    assert_eq!(b.code, "console.log('x');");
}

#[test]
fn assigns_indices_across_sources() {
    let blocks = collect_blocks(
        vec![input("a.md", "```txt\na\n```\n"), input("b.md", "text `x`")],
        true,
    );
    assert_eq!(blocks.len(), 2);
    assert_eq!(blocks[0].source, "a.md");
    assert_eq!(blocks[0].index, 0);
    assert_eq!(blocks[1].source, "b.md");
    assert_eq!(blocks[1].index, 1);
    assert_eq!(blocks[1].kind, BlockKind::Inline);
}

#[test]
fn matches_lang_case_insensitive() {
    let block = CodeBlock {
        index: 0,
        source: "file.md".into(),
        kind: BlockKind::Fenced,
        lang: Some("Rust".into()),
        start_line: None,
        end_line: None,
        code: String::new(),
    };
    assert!(matches_lang(&block, "rust"));
    assert!(!matches_lang(&block, "python"));
}

#[test]
fn parses_index_filters() {
    match parse_index_filter(Some("3")).unwrap() {
        Some(IndexFilter::Single(3)) => {}
        other => panic!("unexpected: {:?}", other),
    }

    match parse_index_filter(Some("1-4")).unwrap() {
        Some(IndexFilter::Range { start, end }) => {
            assert_eq!(start, 1);
            assert_eq!(end, 4);
        }
        other => panic!("unexpected: {:?}", other),
    }

    assert!(parse_index_filter(Some("4-2")).is_err());
}

#[test]
fn renders_fenced_with_line_numbers() {
    let block = CodeBlock {
        index: 0,
        source: "file.md".into(),
        kind: BlockKind::Fenced,
        lang: Some("rs".into()),
        start_line: Some(10),
        end_line: Some(11),
        code: "fn a() {}\nfn b() {}".into(),
    };

    let rendered = render_block(&block, true, true);
    let expected = "```rs\n    10: fn a() {}\n    11: fn b() {}\n```";
    assert_eq!(rendered, expected);
}

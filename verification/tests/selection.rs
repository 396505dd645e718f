use mdcode::block::{BlockKind, CodeBlock, InputSource};
use mdcode::collect::collect_blocks;
use mdcode::number::NumberError;
use mdcode::pipeline::{extract_matching, ExtractError};
use mdcode::select::{
    apply_index_filter, filter_blocks, filter_by_lang, parse_index_filter, parse_lang_selector,
    IndexFilter, LangSelector, RangeError,
};

fn input(name: &str, content: &str) -> InputSource {
    InputSource {
        name: name.to_string(),
        content: content.to_string(),
    }
}

fn three_documents() -> Vec<InputSource> {
    vec![
        input("a.md", "```rust\na0\n```\n`a1`\n```py\na2\n```\n"),
        input("empty.md", "nothing here\n"),
        input("b.md", "`b0` and `b1`\n~~~Rust\nb2\n~~~\n"),
        input("c.md", "```\nc0"),
    ]
}

#[test]
fn indices_are_offsets_plus_positions() {
    let blocks = collect_blocks(three_documents(), true);
    let expected = [
        ("a.md", "a0"),
        ("a.md", "a1"),
        ("a.md", "a2"),
        ("b.md", "b0"),
        ("b.md", "b1"),
        ("b.md", "b2"),
        ("c.md", "c0"),
    ];
    assert_eq!(blocks.len(), expected.len());
    for (i, (source, code)) in expected.iter().enumerate() {
        assert_eq!(blocks[i].index, i);
        assert_eq!(blocks[i].source, *source);
        assert_eq!(blocks[i].code, *code);
    }
}

#[test]
fn single_index_selects_one_block() {
    let kept = apply_index_filter(collect_blocks(three_documents(), true), IndexFilter::Single(4));
    assert_eq!(kept.len(), 1);
    assert_eq!(kept[0].index, 4);
    assert_eq!(kept[0].code, "b1");
    let none = apply_index_filter(collect_blocks(three_documents(), true), IndexFilter::Single(7));
    assert!(none.is_empty());
}

#[test]
fn range_selects_both_ends() {
    let kept = apply_index_filter(
        collect_blocks(three_documents(), true),
        IndexFilter::Range { start: 2, end: 4 },
    );
    let codes: Vec<&str> = kept.iter().map(|b| b.code.as_str()).collect();
    assert_eq!(codes, vec!["a2", "b0", "b1"]);
    let indices: Vec<usize> = kept.iter().map(|b| b.index).collect();
    assert_eq!(indices, vec![2, 3, 4]);
}

#[test]
fn range_beyond_the_blocks_selects_what_exists() {
    let kept = apply_index_filter(
        collect_blocks(three_documents(), true),
        IndexFilter::Range { start: 5, end: 100 },
    );
    let indices: Vec<usize> = kept.iter().map(|b| b.index).collect();
    assert_eq!(indices, vec![5, 6]);
}

#[test]
fn language_filter_ignores_ascii_case_and_untagged_blocks() {
    let kept = filter_by_lang(collect_blocks(three_documents(), true), "RUST");
    let indices: Vec<usize> = kept.iter().map(|b| b.index).collect();
    assert_eq!(indices, vec![0, 5]);
    let none = filter_by_lang(collect_blocks(three_documents(), true), "");
    assert!(none.is_empty());
}

#[test]
fn index_filter_goes_by_indices_before_language_filter() {
    let kept = filter_blocks(
        collect_blocks(three_documents(), true),
        Some("rust"),
        Some(IndexFilter::Range { start: 1, end: 5 }),
    )
    .unwrap();
    assert_eq!(kept.len(), 1);
    assert_eq!(kept[0].index, 5);
    assert_eq!(kept[0].code, "b2");
    let kept = filter_blocks(
        collect_blocks(three_documents(), true),
        Some("rust"),
        Some(IndexFilter::Single(1)),
    )
    .unwrap();
    assert!(kept.is_empty());
}

#[test]
fn without_filters_all_blocks_stay() {
    let kept = filter_blocks(collect_blocks(three_documents(), true), None, None).unwrap();
    assert_eq!(kept.len(), 7);
}

#[test]
fn reversed_range_is_refused_before_filtering() {
    let r = filter_blocks(
        collect_blocks(three_documents(), true),
        None,
        Some(IndexFilter::Range { start: 4, end: 2 }),
    );
    assert_eq!(r.err(), Some(RangeError::StartAfterEnd));
}

#[test]
fn requests_are_read_between_white_space() {
    assert_eq!(parse_index_filter(None), Ok(None));
    assert_eq!(parse_index_filter(Some(" 7 ")), Ok(Some(IndexFilter::Single(7))));
    assert_eq!(parse_index_filter(Some("+7")), Ok(Some(IndexFilter::Single(7))));
    assert_eq!(parse_index_filter(Some("007")), Ok(Some(IndexFilter::Single(7))));
    assert_eq!(
        parse_index_filter(Some(" 2 - 5 ")),
        Ok(Some(IndexFilter::Range { start: 2, end: 5 }))
    );
    assert_eq!(
        parse_index_filter(Some("3-3")),
        Ok(Some(IndexFilter::Range { start: 3, end: 3 }))
    );
    assert_eq!(
        parse_index_filter(Some("18446744073709551615")),
        Ok(Some(IndexFilter::Single(usize::MAX)))
    );
}

#[test]
fn reversed_range_is_a_range_error() {
    assert_eq!(parse_index_filter(Some("4-2")), Err(RangeError::StartAfterEnd));
}

#[test]
fn unreadable_numbers_are_refused() {
    let empty = Err(RangeError::Unparsable(NumberError::Empty));
    let digit = Err(RangeError::Unparsable(NumberError::InvalidDigit));
    let large = Err(RangeError::Unparsable(NumberError::Overflow));
    assert_eq!(parse_index_filter(Some("")), empty);
    assert_eq!(parse_index_filter(Some("   ")), empty);
    assert_eq!(parse_index_filter(Some("1-")), empty);
    assert_eq!(parse_index_filter(Some("-1")), empty);
    assert_eq!(parse_index_filter(Some("x")), digit);
    assert_eq!(parse_index_filter(Some("+")), digit);
    assert_eq!(parse_index_filter(Some("1 2")), digit);
    assert_eq!(parse_index_filter(Some("1_000")), digit);
    assert_eq!(parse_index_filter(Some("1-2-3")), digit);
    assert_eq!(parse_index_filter(Some("x-")), digit);
    assert_eq!(parse_index_filter(Some("99999999999999999999999999")), large);
    assert_eq!(parse_index_filter(Some("99999999999999999999999999x")), large);
    assert_eq!(parse_index_filter(Some("9x9999999999999999999999999")), digit);
}

#[test]
fn agrees_with_the_standard_parser() {
    for text in ["0", "12", "+5", "-5", "", "+", "-", "１２", "4294967296", "18446744073709551616"] {
        let ours = parse_index_filter(Some(text));
        match text.parse::<usize>() {
            Ok(n) => assert_eq!(ours, Ok(Some(IndexFilter::Single(n)))),
            Err(_) => assert!(ours.is_err() || text.contains('-')),
        }
    }
}

#[test]
fn language_selector_from_arguments() {
    assert!(matches!(parse_lang_selector(&None), LangSelector::All));
    assert!(matches!(parse_lang_selector(&Some(None)), LangSelector::List));
    match parse_lang_selector(&Some(Some("RuST".to_string()))) {
        LangSelector::Filter(lang) => assert_eq!(lang, "rust"),
        other => panic!("unexpected: {:?}", other),
    }
    match parse_lang_selector(&Some(Some("ÉCOLE".to_string()))) {
        LangSelector::Filter(lang) => assert_eq!(lang, "école"),
        other => panic!("unexpected: {:?}", other),
    }
}

#[test]
fn pipeline_hands_out_the_requested_blocks() {
    let selector = LangSelector::Filter("rust".to_string());
    let kept = extract_matching(three_documents(), true, &selector, Some("0-4")).unwrap();
    assert_eq!(kept.len(), 1);
    assert_eq!(kept[0].index, 0);
    let all = extract_matching(three_documents(), false, &LangSelector::All, None).unwrap();
    let codes: Vec<&str> = all.iter().map(|b| b.code.as_str()).collect();
    assert_eq!(codes, vec!["a0", "a2", "b2", "c0"]);
    assert!(all.iter().all(|b| b.kind == BlockKind::Fenced));
}

#[test]
fn pipeline_tells_its_failures_apart() {
    let none: Vec<CodeBlock> = Vec::new();
    assert!(none.is_empty());
    assert_eq!(
        extract_matching(vec![], true, &LangSelector::All, Some("4-2")).err(),
        Some(ExtractError::NoInput)
    );
    assert_eq!(
        extract_matching(three_documents(), true, &LangSelector::All, Some("4-2")).err(),
        Some(ExtractError::Range(RangeError::StartAfterEnd))
    );
    assert_eq!(
        extract_matching(three_documents(), true, &LangSelector::All, Some("no")).err(),
        Some(ExtractError::Range(RangeError::Unparsable(NumberError::InvalidDigit)))
    );
    assert_eq!(
        extract_matching(three_documents(), true, &LangSelector::All, Some("50")).err(),
        Some(ExtractError::NoMatch)
    );
    assert_eq!(
        extract_matching(vec![input("e.md", "plain text")], true, &LangSelector::List, None).err(),
        Some(ExtractError::NoMatch)
    );
}

#[test]
fn errors_say_what_went_wrong() {
    assert_eq!(RangeError::StartAfterEnd.message(), "range start must be <= end");
    assert_eq!(
        NumberError::Empty.message(),
        "".parse::<usize>().unwrap_err().to_string()
    );
    assert_eq!(
        NumberError::InvalidDigit.message(),
        "x".parse::<usize>().unwrap_err().to_string()
    );
    assert_eq!(
        RangeError::Unparsable(NumberError::Overflow).message(),
        "99999999999999999999999999"
            .parse::<usize>()
            .unwrap_err()
            .to_string()
    );
}

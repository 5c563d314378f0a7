use dungeon_note::{
    chunk_breaks, chunk_code, chunk_links, chunk_math, chunk_style, chunk_text, count_indent,
    parse_text_block_precursors, parse_text_blocks, split, split_break, split_code, split_link,
    split_math, split_or_end, split_scope, Grammar, ParseError, TextBlock, TextBlockPrecursor,
    TextChunk,
};

fn grammar() -> Grammar {
    Grammar::new().unwrap()
}

fn text(s: &str) -> TextChunk {
    TextChunk::Text(s.to_string())
}

fn paragraph(s: &str) -> TextBlock {
    TextBlock::Paragraph { chunks: vec![text(s)] }
}

#[test]
fn split_scope_test() {
    let text = r#"header
        line 1
            line 2
        line 3
    line 4"#;

    let (first, second) = split_scope(text, 8, false);

    assert_eq!(first, "header\n        line 1\n            line 2\n        line 3\n");
    assert_eq!(second, "    line 4");
}

#[test]
fn parser_split_scope_test() {
    let text = r#"header
        line 1
            line 2
        line 3
    line 4"#;

    let (first, second) = split_scope(text, 8, false);

    assert_eq!(first, "header\n        line 1\n            line 2\n        line 3\n");
    assert_eq!(second, "    line 4");
}

#[test]
fn split_scope_tests_the_first_line_on_request() {
    assert_eq!(split_scope("a\n  b", 2, true), ("", "a\n  b"));
    assert_eq!(split_scope("a\n  b", 2, false), ("a\n  b", ""));
    assert_eq!(split_scope("", 2, true), ("", ""));
    assert_eq!(split_scope("\ta\n b\n", 4, true), ("\ta\n", " b\n"));
}

#[test]
fn split_scope_cuts_at_line_starts_with_carriage_returns() {
    assert_eq!(split_scope("- a\r\n  \u{e9}\u{e9}\r\nx", 2, false), ("- a\r\n  \u{e9}\u{e9}\r\n", "x"));
}

#[test]
fn count_indent_counts_tabs_as_four() {
    assert_eq!(count_indent(""), 0);
    assert_eq!(count_indent("  x "), 2);
    assert_eq!(count_indent("\t x"), 5);
    assert_eq!(count_indent(" \t\t"), 9);
    assert_eq!(count_indent("x  "), 0);
}

#[test]
fn split_cuts_at_the_first_delimiter() {
    assert_eq!(split("foobazbar", "baz"), Some(("foo", "bar")));
    assert_eq!(split("foobazbarbaz", "baz"), Some(("foo", "barbaz")));
    assert_eq!(split("foobar", "baz"), None);
    assert_eq!(split("abc", ""), Some(("", "abc")));
    assert_eq!(split("\u{e9}x\u{e9}", "x"), Some(("\u{e9}", "\u{e9}")));
    assert_eq!(split_or_end("foobazbar", "quux"), ("foobazbar", ""));
    assert_eq!(split_or_end("foobazbar", "baz"), ("foo", "bar"));
}

#[test]
fn one_blank_line_parts_paragraphs_without_space() {
    let g = grammar();
    assert_eq!(parse_text_blocks(&g, "a\n\nb"), Ok(vec![paragraph("a"), paragraph("b")]));
}

#[test]
fn two_blank_lines_give_one_vertical_space() {
    let g = grammar();
    assert_eq!(
        parse_text_blocks(&g, "a\n\n\nb"),
        Ok(vec![paragraph("a"), TextBlock::VerticalSpace, paragraph("b")])
    );
    assert_eq!(
        parse_text_blocks(&g, "a\n\n\n\n\nb"),
        Ok(vec![
            paragraph("a"),
            TextBlock::VerticalSpace,
            TextBlock::VerticalSpace,
            TextBlock::VerticalSpace,
            paragraph("b")
        ])
    );
}

#[test]
fn lines_without_blank_line_join_into_one_paragraph() {
    let g = grammar();
    assert_eq!(parse_text_blocks(&g, "a\nb\nc"), Ok(vec![paragraph("a b c")]));
}

#[test]
fn list_items_reach_as_far_as_their_indentation() {
    let g = grammar();
    assert_eq!(
        parse_text_blocks(&g, "- item1\n    nested\n- item2"),
        Ok(vec![TextBlock::UnorderedList {
            items: vec![paragraph("item1     nested"), paragraph("item2")]
        }])
    );
}

#[test]
fn a_less_indented_line_ends_the_list() {
    let g = grammar();
    assert_eq!(
        parse_text_blocks(&g, "- one\n- two\nafter"),
        Ok(vec![
            TextBlock::UnorderedList { items: vec![paragraph("one"), paragraph("two")] },
            paragraph("after")
        ])
    );
}

#[test]
fn nested_lists() {
    let g = grammar();
    assert_eq!(
        parse_text_blocks(&g, "- a\n  - b\n    - c\n- d"),
        Ok(vec![TextBlock::UnorderedList {
            items: vec![
                paragraph("a"),
                TextBlock::UnorderedList {
                    items: vec![
                        paragraph("b"),
                        TextBlock::UnorderedList { items: vec![paragraph("c")] }
                    ]
                },
                paragraph("d")
            ]
        }])
    );
}

#[test]
fn ordered_lists_take_digits_and_roman_numerals() {
    let g = grammar();
    assert_eq!(
        parse_text_blocks(&g, "1. one\n2. two"),
        Ok(vec![TextBlock::OrderedList { items: vec![paragraph("one"), paragraph("two")] }])
    );
    assert_eq!(
        parse_text_blocks(&g, "iv. four"),
        Ok(vec![TextBlock::OrderedList { items: vec![paragraph("four")] }])
    );
}

#[test]
fn a_list_marker_that_runs_over_its_line_gives_an_empty_item() {
    let g = grammar();
    assert_eq!(
        parse_text_blocks(&g, "- \n\nfoo"),
        Ok(vec![TextBlock::UnorderedList { items: vec![] }, paragraph("foo")])
    );
}

#[test]
fn headers_take_one_to_six_hashes() {
    let g = grammar();
    assert_eq!(
        parse_text_blocks(&g, "# Title\ntext"),
        Ok(vec![TextBlock::Header { level: 1, chunks: vec![text("Title")] }, paragraph("text")])
    );
    assert_eq!(
        parse_text_blocks(&g, "###### six"),
        Ok(vec![TextBlock::Header { level: 6, chunks: vec![text("six")] }])
    );
    assert_eq!(parse_text_blocks(&g, "####### seven"), Ok(vec![paragraph("####### seven")]));
    assert_eq!(parse_text_blocks(&g, "#nospace"), Ok(vec![paragraph("#nospace")]));
}

#[test]
fn a_header_of_lower_level_after_one_of_higher_level_is_a_header() {
    let g = grammar();
    assert_eq!(
        parse_text_blocks(&g, "## b\n# a"),
        Ok(vec![
            TextBlock::Header { level: 2, chunks: vec![text("b")] },
            TextBlock::Header { level: 1, chunks: vec![text("a")] }
        ])
    );
}

#[test]
fn code_blocks_run_from_fence_to_fence() {
    let g = grammar();
    assert_eq!(
        parse_text_blocks(&g, "```\nlet x = *a*;\n```\nafter"),
        Ok(vec![TextBlock::CodeBlock { text: "let x = *a*;".to_string() }, paragraph("after")])
    );
    assert_eq!(
        parse_text_blocks(&g, "```code``` trailing\nnext"),
        Ok(vec![TextBlock::CodeBlock { text: "code".to_string() }, paragraph("next")])
    );
    assert_eq!(
        parse_text_blocks(&g, "```never closed"),
        Ok(vec![TextBlock::Paragraph {
            chunks: vec![text(""), TextChunk::Code { text: "".to_string() }, text("`never closed")]
        }])
    );
}

#[test]
fn a_code_fence_before_a_wide_character_does_not_cut_it() {
    let g = grammar();
    assert_eq!(
        parse_text_blocks(&g, "```a```\u{e9}\nb"),
        Ok(vec![TextBlock::CodeBlock { text: "a".to_string() }, paragraph("b")])
    );
}

#[test]
fn rules_take_three_or_more_dashes() {
    let g = grammar();
    assert_eq!(
        parse_text_blocks(&g, "a\n\n-----\nb"),
        Ok(vec![paragraph("a"), TextBlock::HorizontalRule, paragraph("b")])
    );
}

#[test]
fn quotes_hold_the_blocks_of_what_they_quote() {
    let g = grammar();
    assert_eq!(
        parse_text_blocks(&g, ">a\n>b\nc"),
        Ok(vec![TextBlock::BlockQuote { inner: vec![paragraph("a b")] }, paragraph("c")])
    );
    assert_eq!(
        parse_text_blocks(&g, "> a\n> b\n\nc"),
        Ok(vec![
            TextBlock::BlockQuote { inner: vec![paragraph("a  b")] },
            TextBlock::VerticalSpace,
            paragraph("c")
        ])
    );
    assert_eq!(
        parse_text_blocks(&g, ">> deep"),
        Ok(vec![TextBlock::BlockQuote {
            inner: vec![TextBlock::BlockQuote { inner: vec![paragraph("deep")] }]
        }])
    );
}

#[test]
fn images_leave_the_rest_of_their_line() {
    let g = grammar();
    assert_eq!(
        parse_text_blocks(&g, "![alt text](http://x/y.png) tail"),
        Ok(vec![
            TextBlock::Image { url: "http://x/y.png".to_string(), alt: "alt text".to_string() },
            paragraph(" tail")
        ])
    );
}

#[test]
fn empty_and_blank_texts_have_no_blocks() {
    let g = grammar();
    assert_eq!(parse_text_blocks(&g, ""), Ok(vec![]));
    assert_eq!(parse_text_blocks(&g, " \n\t\n \u{a0}"), Ok(vec![]));
}

#[test]
fn unterminated_italic_stays_text() {
    let g = grammar();
    assert_eq!(chunk_text(&g, "a *b"), Ok(vec![text("a *b")]));
    assert_eq!(chunk_text(&g, "a **b"), Ok(vec![text("a **b")]));
    assert_eq!(chunk_text(&g, "~~a __b"), Ok(vec![text("~~a __b")]));
}

#[test]
fn emphasis_wraps_what_its_markers_enclose() {
    let g = grammar();
    assert_eq!(
        chunk_text(&g, "a **b** c"),
        Ok(vec![text("a "), TextChunk::Bold { chunks: vec![text("b")] }, text(" c")])
    );
    assert_eq!(
        chunk_text(&g, "*i*"),
        Ok(vec![text(""), TextChunk::Italic { chunks: vec![text("i")] }, text("")])
    );
    assert_eq!(
        chunk_text(&g, "__u__~~s~~"),
        Ok(vec![
            text(""),
            TextChunk::Underline { chunks: vec![text("u")] },
            text(""),
            TextChunk::Strikethrough { chunks: vec![text("s")] },
            text("")
        ])
    );
    assert_eq!(
        chunk_text(&g, "**a *b* c**"),
        Ok(vec![
            text(""),
            TextChunk::Bold {
                chunks: vec![text("a "), TextChunk::Italic { chunks: vec![text("b")] }, text(" c")]
            },
            text("")
        ])
    );
}

#[test]
fn an_unclosed_marker_stays_text_before_a_later_style() {
    let g = grammar();
    assert_eq!(
        chunk_text(&g, "a *b **c**"),
        Ok(vec![text("a *b "), TextChunk::Bold { chunks: vec![text("c")] }, text("")])
    );
}

#[test]
fn links_breaks_and_code_come_before_emphasis() {
    let g = grammar();
    assert_eq!(
        chunk_text(&g, "foo [bar](baz) quux"),
        Ok(vec![
            text("foo "),
            TextChunk::Link { title: vec![text("bar")], url: "baz".to_string() },
            text(" quux")
        ])
    );
    assert_eq!(chunk_text(&g, "a<br>b"), Ok(vec![text("a"), TextChunk::NewLine, text("b")]));
    assert_eq!(
        chunk_text(&g, "x `**not bold**` y"),
        Ok(vec![text("x "), TextChunk::Code { text: "**not bold**".to_string() }, text(" y")])
    );
    assert_eq!(
        chunk_text(&g, "[**t**](u)"),
        Ok(vec![
            text(""),
            TextChunk::Link {
                title: vec![text(""), TextChunk::Bold { chunks: vec![text("t")] }, text("")],
                url: "u".to_string()
            },
            text("")
        ])
    );
}

#[test]
fn formulas_are_rendered() {
    let g = grammar();
    let chunks = chunk_text(&g, "so $x^2$ holds").unwrap();
    assert_eq!(chunks.len(), 3);
    assert_eq!(chunks[0], text("so "));
    assert_eq!(chunks[2], text(" holds"));
    match &chunks[1] {
        TextChunk::Math { text } => {
            assert!(text.contains("katex"));
            assert!(text.contains("<math"));
            assert!(!text.contains("katex-display"));
        }
        other => panic!("no formula: {:?}", other),
    }
    let blocks = parse_text_blocks(&g, "$$\nx^2\n$$").unwrap();
    assert_eq!(blocks.len(), 1);
    match &blocks[0] {
        TextBlock::MathBlock { text } => assert!(text.contains("katex-display")),
        other => panic!("no formula: {:?}", other),
    }
}

#[test]
fn a_formula_before_a_code_span_is_rendered() {
    let g = grammar();
    let chunks = chunk_text(&g, "$x$ `c`").unwrap();
    assert_eq!(chunks.len(), 5);
    assert_eq!(chunks[0], text(""));
    assert!(matches!(chunks[1], TextChunk::Math { .. }));
    assert_eq!(chunks[2], text(" "));
    assert_eq!(chunks[3], TextChunk::Code { text: "c".to_string() });
    assert_eq!(chunks[4], text(""));
}

#[test]
fn a_formula_that_does_not_render_fails_the_parse() {
    let g = grammar();
    assert_eq!(chunk_text(&g, "$\\frac{$"), Err(ParseError::MathRenderFailure));
    assert_eq!(parse_text_blocks(&g, "a\n\n$$\\undefinedcommand$$"), Err(ParseError::MathRenderFailure));
    assert_eq!(parse_text_blocks(&g, "- a\n- $\\frac{$"), Err(ParseError::MathRenderFailure));
}

#[test]
fn a_header_takes_its_line_only() {
    let g = grammar();
    assert_eq!(
        parse_text_blocks(&g, "# \nfoo"),
        Ok(vec![TextBlock::Header { level: 1, chunks: vec![text("")] }, paragraph("foo")])
    );
    assert_eq!(
        parse_text_blocks(&g, "##   spaced  \nfoo"),
        Ok(vec![TextBlock::Header { level: 2, chunks: vec![text("spaced  ")] }, paragraph("foo")])
    );
}

#[test]
fn the_splitters_cut_at_the_first_pair() {
    assert_eq!(split_link("foo [bar](baz) quux"), Some(("foo ", ("bar", "baz"), " quux")));
    assert_eq!(split_link("a [b] c [d](e)"), Some(("a ", ("b] c [d", "e"), "")));
    assert_eq!(split_link("foo [bar](baz quux"), None);
    assert_eq!(split_link("foo bar"), None);
    assert_eq!(split_break("foo<br>bar<br>baz"), Some(("foo", "bar<br>baz")));
    assert_eq!(split_break("foo"), None);
    assert_eq!(split_code("foo `bar` baz"), Some(("foo ", "bar", " baz")));
    assert_eq!(split_code("foo `bar baz"), None);
    assert_eq!(split_math("foo $bar$ baz"), Some(("foo ", "bar", " baz")));
    assert_eq!(split_math("$$"), Some(("", "", "")));
    assert_eq!(split_math("foo $bar baz"), None);
}

#[test]
fn each_stage_hands_plain_text_to_the_next() {
    let g = grammar();
    assert_eq!(chunk_style(&g, "[a](b)"), vec![text("[a](b)")]);
    assert_eq!(chunk_math(&g, "`a`<br>"), Ok(vec![text("`a`<br>")]));
    assert_eq!(
        chunk_code(&g, "`a`<br>[b](c)"),
        Ok(vec![text(""), TextChunk::Code { text: "a".to_string() }, text("<br>[b](c)")])
    );
    assert_eq!(
        chunk_breaks(&g, "a<br>[b](c)"),
        Ok(vec![text("a"), TextChunk::NewLine, text("[b](c)")])
    );
    assert_eq!(
        chunk_links(&g, "a<br>[b](c)"),
        Ok(vec![
            text("a"),
            TextChunk::NewLine,
            text(""),
            TextChunk::Link { title: vec![text("b")], url: "c".to_string() },
            text("")
        ])
    );
}

#[test]
fn the_first_pass_keeps_the_break_between_paragraphs() {
    let g = grammar();
    assert_eq!(
        parse_text_block_precursors(&g, "  # t\na\nb\n\n\n$$x$$\n- i\n\n"),
        vec![
            TextBlockPrecursor::Header { level: 1, text: "t".to_string() },
            TextBlockPrecursor::Paragraph { text: "a b".to_string() },
            TextBlockPrecursor::SpacelessBreak,
            TextBlockPrecursor::VerticalSpace,
            TextBlockPrecursor::MathBlock { text: "x".to_string() },
            TextBlockPrecursor::UnorderedList {
                items: vec![TextBlockPrecursor::Paragraph { text: "i".to_string() }]
            },
        ]
    );
}

#[test]
fn deeply_nested_lists_and_quotes() {
    let g = grammar();
    let mut text = String::new();
    for depth in 0..60 {
        text.push_str(&" ".repeat(2 * depth));
        text.push_str("- item\n");
    }
    let mut blocks = parse_text_blocks(&g, &text).unwrap();
    let mut depth = 0;
    while let Some(TextBlock::UnorderedList { items }) = blocks.pop() {
        depth += 1;
        blocks = items;
    }
    assert_eq!(depth, 60);
    let quoted = format!("{}deep", ">".repeat(200));
    let mut blocks = parse_text_blocks(&g, &quoted).unwrap();
    let mut depth = 0;
    while let Some(TextBlock::BlockQuote { inner }) = blocks.pop() {
        depth += 1;
        blocks = inner;
    }
    assert_eq!(depth, 200);
}

#[test]
fn a_formula_is_rendered_the_same_each_time() {
    let g = grammar();
    let first = chunk_text(&g, "$\\sum_{i=0}^n i$");
    let defining = chunk_text(&g, "$\\gdef\\foo{x}\\foo$");
    let second = chunk_text(&g, "$\\sum_{i=0}^n i$");
    assert!(first.is_ok());
    assert!(defining.is_ok());
    assert_eq!(first, second);
    assert_eq!(chunk_text(&g, "$\\foo$"), Err(ParseError::MathRenderFailure));
    assert_eq!(chunk_text(&g, "$\\gdef\\foo{x}\\foo$"), defining);
}

fn leaves(chunks: &[TextChunk], found: &mut Vec<String>) {
    for chunk in chunks {
        match chunk {
            TextChunk::Text(text) => found.push(text.clone()),
            TextChunk::Link { title, .. } => leaves(title, found),
            TextChunk::Bold { chunks }
            | TextChunk::Italic { chunks }
            | TextChunk::Underline { chunks }
            | TextChunk::Strikethrough { chunks } => leaves(chunks, found),
            _ => {}
        }
    }
}

#[test]
fn no_plain_text_holds_a_pair_of_markers() {
    let g = grammar();
    let pieces = ["**", "__", "~~", "*", "a", " ", "_", "~", "[x](y)", "`", "\u{e9}"];
    let mut state: u64 = 12345;
    for _ in 0..400 {
        let mut text = String::new();
        for _ in 0..12 {
            state = state.wrapping_mul(6364136223846793005).wrapping_add(1442695040888963407);
            text.push_str(pieces[(state >> 33) as usize % pieces.len()]);
        }
        let chunks = chunk_text(&g, &text).unwrap();
        let mut found = Vec::new();
        leaves(&chunks, &mut found);
        for leaf in found {
            for marker in ["**", "__", "~~"] {
                if let Some(first) = leaf.find(marker) {
                    assert!(leaf[first + 2..].find(marker).is_none(), "{:?} in {:?}", leaf, text);
                }
            }
        }
    }
}

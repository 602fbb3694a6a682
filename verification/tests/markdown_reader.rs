use rust_book_tools::markdown::{
    extract_img_alt, is_list_item, strip_list_marker, is_ordered_item, is_standalone_code_title, join_wrapped_lines,
    looks_like_table_row, sanitize_inline_html,
};
use rust_book_tools::parse::{parse_markdown, Block};

fn s(x: &str) -> String {
    x.to_string()
}

#[test]
fn reads_every_kind_of_block() {
    let input = "# Title\n\nSome text\ncontinues here.\n\n> quote one\n> quote two\n\n- a\n- b\n\n1. x\n2. y\n\n| a | b |\n|---|---|\n\nsrc/main.rs\n```rust\nfn main() {}\n```\n<img alt=\"Pic\" src=\"p.png\">\n<!-- comment\nstill -->\n## Sub\n";
    let blocks = parse_markdown(input);
    let expected = vec![
        Block::Heading { level: 1, text: s("Title") },
        Block::Paragraph(s("Some text continues here.")),
        Block::Quote(s("quote one quote two")),
        Block::List { ordered: false, items: vec![s("a"), s("b")] },
        Block::List { ordered: true, items: vec![s("x"), s("y")] },
        Block::Table(vec![s("| a | b |"), s("|---|---|")]),
        Block::CodeBlock { title: Some(s("src/main.rs")), code: s("fn main() {}") },
        Block::Spacer(4),
        Block::Figure(s("Figure: Pic")),
        Block::Heading { level: 2, text: s("Sub") },
    ];
    assert_eq!(blocks, expected);
}

#[test]
fn unterminated_code_block_runs_to_the_end() {
    let blocks = parse_markdown("```\nline one\r\n  line two");
    assert_eq!(
        blocks,
        vec![
            Block::CodeBlock { title: None, code: s("line one\n  line two") },
            Block::Spacer(4),
        ]
    );
}

#[test]
fn paragraph_ends_at_an_image_and_at_a_heading() {
    let blocks = parse_markdown("one<br>two\nthree <img alt='A' src=x>\n# H");
    assert_eq!(
        blocks,
        vec![
            Block::Paragraph(s("one two")),
            Block::Figure(s("Figure: A")),
            Block::Heading { level: 1, text: s("H") },
        ]
    );
}

#[test]
fn list_stops_at_an_item_of_the_other_kind() {
    let blocks = parse_markdown("- a\n1. b\ntext");
    assert_eq!(
        blocks,
        vec![
            Block::List { ordered: false, items: vec![s("a")] },
            Block::List { ordered: true, items: vec![s("b")] },
            Block::Paragraph(s("text")),
        ]
    );
}

#[test]
fn blank_line_drops_a_pending_code_title() {
    let blocks = parse_markdown("a.rs\n\n```\nx\n```");
    // "a.rs" is not followed by a fence, so it is a paragraph
    assert_eq!(
        blocks,
        vec![
            Block::Paragraph(s("a.rs")),
            Block::CodeBlock { title: None, code: s("x") },
            Block::Spacer(4),
        ]
    );
}

#[test]
fn toc_markers_and_anchors_are_skipped() {
    let blocks = parse_markdown("[TOC]\n<a id=\"x\"></a>\n### Deep ###");
    assert_eq!(blocks, vec![Block::Heading { level: 3, text: s("Deep ###") }]);
}

#[test]
fn empty_input_has_no_blocks() {
    assert_eq!(parse_markdown(""), Vec::<Block>::new());
    assert_eq!(parse_markdown("\n\n   \n"), Vec::<Block>::new());
}

#[test]
fn classifies_lines() {
    assert!(is_ordered_item("3. three"));
    assert!(!is_ordered_item("3.three"));
    assert!(!is_ordered_item(". x"));
    assert!(is_list_item("* x"));
    assert!(!is_list_item("-x"));
    assert!(looks_like_table_row("| a | b |"));
    assert!(!looks_like_table_row("[a|b|c]"));
    assert!(!looks_like_table_row("a | b"));
    assert!(is_standalone_code_title("src/lib.rs", Some("  ```rust")));
    assert!(!is_standalone_code_title("src lib.rs", Some("```")));
    assert!(!is_standalone_code_title("src/lib.rs", None));
    assert!(!is_standalone_code_title("README", Some("```")));
}

#[test]
fn normalises_inline_text() {
    assert_eq!(sanitize_inline_html("a<br>b<br />c<br/>d"), "a b c d");
    assert_eq!(
        join_wrapped_lines(&[s("  one "), s("   "), s("two")]),
        "one two"
    );
    assert_eq!(join_wrapped_lines(&[]), "");
}

#[test]
fn image_alt_text_needs_a_closing_quote() {
    assert_eq!(extract_img_alt("<img alt=\"open src=x>"), None);
    assert_eq!(extract_img_alt("no image here alt=\"x\""), None);
    assert_eq!(extract_img_alt("<img src=x alt=|bar|>").as_deref(), Some("Figure: bar"));
    assert_eq!(extract_img_alt("<img alt="), None);
}

#[test]
fn strips_markers_by_byte_offset() {
    assert_eq!(strip_list_marker("text. rest"), "rest");
    assert_eq!(strip_list_marker("abc"), "c");
    assert_eq!(strip_list_marker("éx"), "x");
}

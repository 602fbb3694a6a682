use rust_book_tools::parse::Block;
use rust_book_tools::toc::{
    chunk_toc_entries, collect_toc_entries, resolve_toc_pages, toc_page_count, TocEntry,
};
use rust_book_tools::wrap::{wrap_code_line, wrap_text};

fn entry(i: usize) -> TocEntry {
    TocEntry { title: format!("Entry {}", i), level: 1, page: i }
}

#[test]
fn toc_lists_chapters_and_sections() {
    let blocks = vec![
        Block::Heading { level: 1, text: "One".to_string() },
        Block::Paragraph("p".to_string()),
        Block::Heading { level: 3, text: "Deep".to_string() },
        Block::Heading { level: 2, text: "Two".to_string() },
    ];
    let toc = collect_toc_entries(&blocks);
    assert_eq!(
        toc,
        vec![
            TocEntry { title: "One".to_string(), level: 1, page: 0 },
            TocEntry { title: "Two".to_string(), level: 2, page: 0 },
        ]
    );
}

#[test]
fn contents_entries_take_the_pages_of_their_headings() {
    let entries = vec![entry(0), entry(1), entry(2)];
    let resolved = resolve_toc_pages(&entries, &[3, 7, 7, 12]);
    let pages: Vec<usize> = resolved.iter().map(|e| e.page).collect();
    assert_eq!(pages, vec![3, 7, 7]);
    assert_eq!(resolved[1].title, entries[1].title);
    assert_eq!(resolved[1].level, entries[1].level);
}

#[test]
fn counts_contents_pages() {
    let entries: Vec<TocEntry> = (0..25).map(entry).collect();
    assert_eq!(toc_page_count(&entries), 1);
    let entries: Vec<TocEntry> = (0..26).map(entry).collect();
    assert_eq!(toc_page_count(&entries), 2);
    let entries: Vec<TocEntry> = (0..63).map(entry).collect();
    assert_eq!(toc_page_count(&entries), 2);
    let entries: Vec<TocEntry> = (0..64).map(entry).collect();
    assert_eq!(toc_page_count(&entries), 3);
    assert_eq!(toc_page_count(&[]), 1);
}

#[test]
fn chunks_contents_entries_per_page() {
    let entries: Vec<TocEntry> = (0..70).map(entry).collect();
    let chunks = chunk_toc_entries(&entries, 3);
    assert_eq!(chunks.len(), 3);
    assert_eq!(chunks[0].len(), 25);
    assert_eq!(chunks[1].len(), 36);
    assert_eq!(chunks[2].len(), 9);
    assert_eq!(chunks[1][0].title, "Entry 25");
    assert_eq!(chunks[2][8].page, 69);
    let empty = chunk_toc_entries(&entries[..3], 2);
    assert_eq!(empty.len(), 2);
    assert_eq!(empty[1].len(), 0);
}

#[test]
fn contents_pages_can_drop_entries_past_their_capacity() {
    // 62 entries take 2 pages by the line count, which hold 61 entries
    let entries: Vec<TocEntry> = (0..62).map(entry).collect();
    let pages = toc_page_count(&entries);
    let chunks = chunk_toc_entries(&entries, pages);
    let shown: usize = chunks.iter().map(|c| c.len()).sum();
    assert_eq!(shown, 61);
}

#[test]
fn wraps_words_greedily() {
    assert_eq!(wrap_text("aa bb cc", 5), vec!["aa bb", "cc"]);
    assert_eq!(wrap_text("   ", 5), vec![""]);
    assert_eq!(wrap_text("longword x", 3), vec!["longword", "x"]);
    assert_eq!(wrap_text("a b", 0), vec!["a", "b"]);
}

#[test]
fn wraps_code_at_the_column_budget() {
    let line = "x".repeat(30);
    assert_eq!(wrap_code_line(&line, 10), vec!["x".repeat(24), format!("  {}", "x".repeat(6))]);
    assert_eq!(wrap_code_line("short", 10), vec!["short"]);
    let exact = "y".repeat(26);
    // the last piece is the two-space indent alone, which is dropped
    assert_eq!(wrap_code_line(&exact, 25), vec!["y".repeat(25), "  y".to_string()]);
    let filled = format!("{}{}", "z".repeat(25), "   ");
    assert_eq!(wrap_code_line(&filled, 25), vec!["z".repeat(25)]);
}

use rust_book_tools::markdown::{extract_img_alt, strip_list_marker};
use rust_book_tools::sources::output_path;
use rust_book_tools::wrap::wrap_text;

const BODY_FONT_SIZE: f32 = 11.0;
const SERIF_WIDTH_FACTOR: f32 = 0.51;

/// The most characters whose estimated width fits in `width`.
fn fitting_chars(width: f32, font_size: f32, factor: f32) -> usize {
    let mut n = 0usize;
    while ((n + 1) as f32) * font_size * factor <= width {
        n += 1;
    }
    n
}

#[test]
fn extracts_image_alt_text() {
    let alt = extract_img_alt(r#"<img alt="Example diagram" src="img/example.svg" />"#);
    assert_eq!(alt.as_deref(), Some("Figure: Example diagram"));
}

#[test]
fn wraps_text_without_losing_words() {
    let lines = wrap_text(
        "Rust makes systems programming more approachable.",
        fitting_chars(120.0, BODY_FONT_SIZE, SERIF_WIDTH_FACTOR),
    );
    assert!(lines.len() >= 2);
    assert_eq!(lines.join(" "), "Rust makes systems programming more approachable.");
}

#[test]
fn strips_list_markers() {
    assert_eq!(strip_list_marker("- hello"), "hello");
    assert_eq!(strip_list_marker("* hello"), "hello");
    assert_eq!(strip_list_marker("12. hello"), "hello");
}

#[test]
fn defaults_output_path_when_no_argument_is_passed() {
    assert_eq!(
        output_path(Vec::<String>::new()),
        "dist/the-rust-programming-language.pdf"
    );
}

#[test]
fn defaults_output_path_when_argument_is_empty() {
    assert_eq!(
        output_path(vec![String::new()]),
        "dist/the-rust-programming-language.pdf"
    );
}

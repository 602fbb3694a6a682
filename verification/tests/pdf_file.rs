use rust_book_tools::pdf::{escape_pdf_text, Font, PageContent, PdfBuilder};

fn find(hay: &[u8], needle: &[u8]) -> Option<usize> {
    hay.windows(needle.len()).position(|w| w == needle)
}

#[test]
fn escapes_pdf_strings() {
    assert_eq!(escape_pdf_text(r"a(b)c\d"), r"a\(b\)c\\d");
    assert_eq!(escape_pdf_text("plain"), "plain");
}

#[test]
fn names_fonts() {
    assert_eq!(Font::Sans.pdf_name(), "F1");
    assert_eq!(Font::SerifItalic.pdf_name(), "F5");
    assert_eq!(Font::Mono.pdf_name(), "F6");
}

#[test]
fn writes_a_pdf_whose_xref_points_at_its_objects() {
    let mut doc = PdfBuilder::new();
    doc.push_page(PageContent { stream: b"BT ET".to_vec() });
    doc.push_page(PageContent { stream: b"q Q".to_vec() });
    let pdf = doc.finish();
    assert!(pdf.starts_with(b"%PDF-1.4\n%\xE2\xE3\xCF\xD3\n"));
    assert!(pdf.ends_with(b"%%EOF\n"));
    let text = String::from_utf8_lossy(&pdf).to_string();
    assert!(text.contains("<< /Type /Pages /Count 2 /Kids [9 0 R 10 0 R] >>"));
    assert!(text.contains("/Contents 11 0 R >>"));
    assert!(text.contains("<< /Length 5 >>\nstream\nBT ETendstream"));
    let xref = find(&pdf, b"xref\n").unwrap();
    let startxref = find(&pdf, b"startxref\n").unwrap();
    let tail = std::str::from_utf8(&pdf[startxref + "startxref\n".len()..]).unwrap();
    let declared: usize = tail.lines().next().unwrap().parse().unwrap();
    assert_eq!(declared, xref);
    let table = std::str::from_utf8(&pdf[xref..]).unwrap();
    let mut lines = table.lines();
    assert_eq!(lines.next(), Some("xref"));
    assert_eq!(lines.next(), Some("0 13"));
    assert_eq!(lines.next(), Some("0000000000 65535 f "));
    for object in 1..=12 {
        let line = lines.next().unwrap();
        assert_eq!(line.len(), 19);
        let offset: usize = line[..10].parse().unwrap();
        let mark = format!("{} 0 obj\n", object);
        assert_eq!(&pdf[offset..offset + mark.len()], mark.as_bytes());
    }
}

#[test]
fn writes_an_empty_document() {
    let pdf = PdfBuilder::new().finish();
    let text = String::from_utf8_lossy(&pdf).to_string();
    assert!(text.contains("<< /Type /Pages /Count 0 /Kids [] >>"));
    assert!(text.contains("trailer\n<< /Size 9 /Root 1 0 R >>"));
}

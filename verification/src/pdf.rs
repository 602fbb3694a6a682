//! Writing the PDF file: fonts, text escaping, and the document structure
//! with its cross-reference table.
use vstd::prelude::*;

use crate::text::{chars_of, join};

verus! {

broadcast use vstd::string::group_string_axioms;

// ---------------------------------------------------------------------------
// Fonts and text
// ---------------------------------------------------------------------------

/// The six fonts of the book.
#[derive(Clone, Copy)]
pub enum Font {
    Sans,
    SansBold,
    Serif,
    SerifBold,
    SerifItalic,
    Mono,
}

/// The resource name of a font in the PDF.
pub open spec fn spec_pdf_name(font: Font) -> Seq<char> {
    match font {
        Font::Sans => "F1"@,
        Font::SansBold => "F2"@,
        Font::Serif => "F3"@,
        Font::SerifBold => "F4"@,
        Font::SerifItalic => "F5"@,
        Font::Mono => "F6"@,
    }
}

impl Font {
    /// The resource name of the font in the PDF (`F1` to `F6`).
    pub fn pdf_name(self) -> (r: &'static str)
        ensures
            r@ == spec_pdf_name(self),
    {
        match self {
            Font::Sans => "F1",
            Font::SansBold => "F2",
            Font::Serif => "F3",
            Font::SerifBold => "F4",
            Font::SerifItalic => "F5",
            Font::Mono => "F6",
        }
    }
}

/// How a character is written inside a PDF string: `'\\'`, `'('` and `')'`
/// get a backslash before them.
pub open spec fn escape_char(c: char) -> Seq<char> {
    if c == '\\' || c == '(' || c == ')' {
        seq!['\\', c]
    } else {
        seq![c]
    }
}

/// `s` written inside a PDF string.
pub open spec fn spec_escape_pdf_text(s: Seq<char>) -> Seq<char>
    decreases s.len(),
{
    if s.len() == 0 {
        Seq::empty()
    } else {
        spec_escape_pdf_text(s.drop_last()) + escape_char(s.last())
    }
}

/// Escapes text for a PDF string literal.
pub fn escape_pdf_text(text: &str) -> (r: String)
    ensures
        r@ == spec_escape_pdf_text(text@),
{
    let s = chars_of(text);
    let mut v: Vec<char> = Vec::new();
    let mut i: usize = 0;
    while i < s.len()
        invariant
            i <= s@.len(),
            v@ == spec_escape_pdf_text(s@.take(i as int)),
        decreases s@.len() - i,
    {
        assert(s@.take(i + 1).drop_last() == s@.take(i as int));
        let c = s[i];
        if c == '\\' || c == '(' || c == ')' {
            v.push('\\');
        }
        v.push(c);
        i = i + 1;
    }
    assert(s@.take(s@.len() as int) == s@);
    crate::text::string_of(v.as_slice())
}

/// What a PDF reader makes of the characters of a string: a backslash
/// stands for the character after it.
pub open spec fn unescape_pdf_text(s: Seq<char>) -> Seq<char>
    decreases s.len(),
{
    if s.len() == 0 {
        Seq::empty()
    } else if s[0] == '\\' && s.len() >= 2 {
        seq![s[1]] + unescape_pdf_text(s.skip(2))
    } else {
        seq![s[0]] + unescape_pdf_text(s.drop_first())
    }
}

proof fn lemma_escape_append(a: Seq<char>, b: Seq<char>)
    ensures
        spec_escape_pdf_text(a + b) == spec_escape_pdf_text(a) + spec_escape_pdf_text(b),
    decreases b.len(),
{
    if b.len() == 0 {
        assert(a + b == a);
    } else {
        lemma_escape_append(a, b.drop_last());
        assert((a + b).drop_last() == a + b.drop_last());
        assert((a + b).last() == b.last());
    }
}

/// Escaping loses nothing: reading the escaped text gives the text back.
pub proof fn lemma_escape_roundtrip(s: Seq<char>)
    ensures
        unescape_pdf_text(spec_escape_pdf_text(s)) == s,
    decreases s.len(),
{
    if s.len() > 0 {
        let c = s[0];
        let rest = s.drop_first();
        assert(s == seq![c] + rest);
        lemma_escape_append(seq![c], rest);
        assert(seq![c].drop_last() == Seq::<char>::empty());
        assert(seq![c].last() == c);
        assert(spec_escape_pdf_text(Seq::<char>::empty()) == Seq::<char>::empty());
        assert(spec_escape_pdf_text(seq![c]) == spec_escape_pdf_text(seq![c].drop_last()) + escape_char(c));
        assert(Seq::<char>::empty() + escape_char(c) == escape_char(c));
        assert(spec_escape_pdf_text(seq![c]) == escape_char(c));
        let e = escape_char(c) + spec_escape_pdf_text(rest);
        lemma_escape_roundtrip(rest);
        if c == '\\' || c == '(' || c == ')' {
            assert(e[0] == '\\');
            assert(e[1] == c);
            assert(e.skip(2) == spec_escape_pdf_text(rest));
        } else {
            assert(e[0] == c);
            assert(e.drop_first() == spec_escape_pdf_text(rest));
        }
    }
}

// ---------------------------------------------------------------------------
// Bytes
// ---------------------------------------------------------------------------

/// The bytes of ASCII text.
pub open spec fn ascii(s: Seq<char>) -> Seq<u8> {
    s.map_values(|c: char| c as u8)
}

/// The bytes of ASCII text.
fn ascii_bytes(s: &str) -> (v: Vec<u8>)
    ensures
        v@ == ascii(s@),
{
    let cs = chars_of(s);
    let mut v: Vec<u8> = Vec::new();
    let mut i: usize = 0;
    while i < cs.len()
        invariant
            i <= cs@.len(),
            v@ == ascii(cs@.take(i as int)),
        decreases cs@.len() - i,
    {
        v.push(cs[i] as u8);
        i = i + 1;
        assert(ascii(cs@.take(i as int)) == ascii(cs@.take(i - 1)).push(cs@[i - 1] as u8));
    }
    assert(cs@.take(cs@.len() as int) == cs@);
    v
}

fn append_bytes(v: &mut Vec<u8>, other: &[u8])
    ensures
        final(v)@ == old(v)@ + other@,
{
    let mut i: usize = 0;
    while i < other.len()
        invariant
            i <= other@.len(),
            v@ == old(v)@ + other@.take(i as int),
        decreases other@.len() - i,
    {
        v.push(other[i]);
        i = i + 1;
        assert(other@.take(i as int) == other@.take(i - 1).push(other@[i - 1]));
    }
    assert(other@.take(other@.len() as int) == other@);
}

/// The decimal digits of `n`.
pub open spec fn dec(n: nat) -> Seq<u8>
    decreases n,
{
    if n < 10 {
        seq![(48 + n) as u8]
    } else {
        dec(n / 10).push((48 + n % 10) as u8)
    }
}

/// The decimal digits of `n`.
fn decimal(n: usize) -> (v: Vec<u8>)
    ensures
        v@ == dec(n as nat),
    decreases n,
{
    if n < 10 {
        let mut v: Vec<u8> = Vec::new();
        v.push((48 + n) as u8);
        v
    } else {
        let mut v = decimal(n / 10);
        v.push((48 + n % 10) as u8);
        v
    }
}

/// `n` in decimal, padded with zeros to ten digits.
pub open spec fn pad10(n: nat) -> Seq<u8> {
    let d = dec(n);
    if d.len() < 10 {
        Seq::new((10 - d.len()) as nat, |i: int| 48u8) + d
    } else {
        d
    }
}

fn decimal_padded(n: usize) -> (v: Vec<u8>)
    ensures
        v@ == pad10(n as nat),
{
    let d = decimal(n);
    if d.len() < 10 {
        let mut v: Vec<u8> = Vec::new();
        let k = 10 - d.len();
        let mut i: usize = 0;
        while i < k
            invariant
                i <= k,
                v@ == Seq::new(i as nat, |j: int| 48u8),
            decreases k - i,
        {
            v.push(48u8);
            i = i + 1;
            assert(v@ == Seq::new(i as nat, |j: int| 48u8));
        }
        append_bytes(&mut v, d.as_slice());
        v
    } else {
        d
    }
}

// ---------------------------------------------------------------------------
// The document
// ---------------------------------------------------------------------------

/// The content stream of one page.
pub struct PageContent {
    pub stream: Vec<u8>,
}

/// The pages of a PDF being assembled.
pub struct PdfBuilder {
    pub pages: Vec<PageContent>,
}

/// The content streams of the pages.
pub open spec fn streams_of(pages: Seq<PageContent>) -> Seq<Seq<u8>> {
    pages.map_values(|p: PageContent| p.stream@)
}

/// Objects before the page objects: the catalog, the page tree and the
/// six fonts.
pub open spec fn fixed_objects() -> nat {
    8
}

/// The object number of the first page object.
pub open spec fn first_page_object() -> nat {
    fixed_objects() + 1
}

/// The reference to page `k` in the page tree.
pub open spec fn kid(k: nat) -> Seq<u8> {
    dec(first_page_object() + k) + ascii(" 0 R"@)
}

/// The catalog object.
pub open spec fn catalog_object() -> Seq<u8> {
    ascii("<< /Type /Catalog /Pages 2 0 R >>"@)
}

/// The page tree of `n` pages.
pub open spec fn page_tree_object(n: nat) -> Seq<u8> {
    ascii("<< /Type /Pages /Count "@) + dec(n) + ascii(" /Kids ["@) + join(
        Seq::new(n, |k: int| kid(k as nat)),
        ascii(" "@),
    ) + ascii("] >>"@)
}

/// The six font objects (Helvetica, Helvetica-Bold, Times-Roman,
/// Times-Bold, Times-Italic, Courier).
pub open spec fn font_objects() -> Seq<Seq<u8>> {
    seq![
        ascii("<< /Type /Font /Subtype /Type1 /BaseFont /Helvetica >>"@),
        ascii("<< /Type /Font /Subtype /Type1 /BaseFont /Helvetica-Bold >>"@),
        ascii("<< /Type /Font /Subtype /Type1 /BaseFont /Times-Roman >>"@),
        ascii("<< /Type /Font /Subtype /Type1 /BaseFont /Times-Bold >>"@),
        ascii("<< /Type /Font /Subtype /Type1 /BaseFont /Times-Italic >>"@),
        ascii("<< /Type /Font /Subtype /Type1 /BaseFont /Courier >>"@),
    ]
}

/// The page object of page `k` of `n`, on US-letter paper, pointing at its
/// content stream.
pub open spec fn page_object(n: nat, k: nat) -> Seq<u8> {
    ascii(
        "<< /Type /Page /Parent 2 0 R /MediaBox [0 0 612 792] /Resources << /Font << /F1 3 0 R /F2 4 0 R /F3 5 0 R /F4 6 0 R /F5 7 0 R /F6 8 0 R >> >> /Contents "@,
    ) + dec(first_page_object() + n + k) + ascii(" 0 R >>"@)
}

/// The stream object holding a page's content.
pub open spec fn stream_object(s: Seq<u8>) -> Seq<u8> {
    ascii("<< /Length "@) + dec(s.len()) + ascii(" >>\nstream\n"@) + s + ascii("endstream"@)
}

/// The objects of the document, in order (object `j + 1` at index `j`).
pub open spec fn pdf_objects(streams: Seq<Seq<u8>>) -> Seq<Seq<u8>> {
    let n = streams.len();
    seq![catalog_object(), page_tree_object(n)] + font_objects() + Seq::new(
        n,
        |k: int| page_object(n, k as nat),
    ) + streams.map_values(|s: Seq<u8>| stream_object(s))
}

/// The file header.
pub open spec fn pdf_header() -> Seq<u8> {
    ascii("%PDF-1.4\n%"@) + seq![0xE2u8, 0xE3u8, 0xCFu8, 0xD3u8] + ascii("\n"@)
}

/// Object `j + 1` written out.
pub open spec fn framed_object(j: nat, obj: Seq<u8>) -> Seq<u8> {
    dec(j + 1) + ascii(" 0 obj\n"@) + obj + ascii("\nendobj\n"@)
}

/// The objects written out one after the other.
pub open spec fn pdf_body(objs: Seq<Seq<u8>>) -> Seq<u8>
    decreases objs.len(),
{
    if objs.len() == 0 {
        Seq::empty()
    } else {
        pdf_body(objs.drop_last()) + framed_object((objs.len() - 1) as nat, objs.last())
    }
}

/// Where object `j + 1` begins in the file.
pub open spec fn object_offset(objs: Seq<Seq<u8>>, j: nat) -> nat {
    pdf_header().len() + pdf_body(objs.take(j as int)).len()
}

/// The cross-reference entries of the first `k` objects.
pub open spec fn xref_entries(objs: Seq<Seq<u8>>, k: nat) -> Seq<u8>
    decreases k,
{
    if k == 0 {
        Seq::empty()
    } else {
        xref_entries(objs, (k - 1) as nat) + pad10(object_offset(objs, (k - 1) as nat)) + ascii(
            " 00000 n \n"@,
        )
    }
}

/// The cross-reference table and trailer of the objects, where the table
/// begins at `xref_offset`.
pub open spec fn pdf_tail(objs: Seq<Seq<u8>>, xref_offset: nat) -> Seq<u8> {
    let size = objs.len() + 1;
    ascii("xref\n0 "@) + dec(size) + ascii("\n"@) + ascii("0000000000 65535 f \n"@)
        + xref_entries(objs, objs.len()) + ascii("trailer\n<< /Size "@) + dec(size) + ascii(
        " /Root 1 0 R >>\nstartxref\n"@,
    ) + dec(xref_offset) + ascii("\n%%EOF\n"@)
}

/// The PDF file of the pages: the header, the objects, the
/// cross-reference table and the trailer.
pub open spec fn pdf_document(streams: Seq<Seq<u8>>) -> Seq<u8> {
    let objs = pdf_objects(streams);
    pdf_header() + pdf_body(objs) + pdf_tail(objs, pdf_header().len() + pdf_body(objs).len())
}

/// The cross-reference table of the document begins at the offset the
/// trailer gives, with the keyword `xref`.
pub proof fn lemma_startxref_points_at_xref(streams: Seq<Seq<u8>>)
    ensures
        ({
            let objs = pdf_objects(streams);
            let at = pdf_header().len() + pdf_body(objs).len();
            pdf_document(streams).subrange(at as int, (at + 5) as int) == ascii("xref\n"@)
        }),
{
    let objs = pdf_objects(streams);
    let at = pdf_header().len() + pdf_body(objs).len();
    let doc = pdf_document(streams);
    reveal_strlit("xref\n0 ");
    reveal_strlit("xref\n");
    let tail = pdf_tail(objs, at);
    assert(doc == (pdf_header() + pdf_body(objs)) + tail);
    assert(ascii("xref\n0 "@).take(5) == ascii("xref\n"@));
    assert(tail.take(5) == ascii("xref\n0 "@).take(5));
    assert(doc.subrange(at as int, (at + 5) as int) == tail.take(5));
}

proof fn lemma_body_prefix(objs: Seq<Seq<u8>>, j: nat)
    requires
        j <= objs.len(),
    ensures
        pdf_body(objs.take(j as int)).len() <= pdf_body(objs).len(),
        pdf_body(objs).subrange(0, pdf_body(objs.take(j as int)).len() as int) == pdf_body(
            objs.take(j as int),
        ),
    decreases objs.len() - j,
{
    if j < objs.len() {
        lemma_body_prefix(objs, (j + 1) as nat);
        let t = objs.take((j + 1) as int);
        assert(t.drop_last() == objs.take(j as int));
        let bj = pdf_body(objs.take(j as int));
        let bj1 = pdf_body(t);
        assert(bj1 == bj + framed_object(j, t.last()));
        let whole = pdf_body(objs);
        assert(whole.subrange(0, bj.len() as int) == bj1.subrange(0, bj.len() as int));
        assert(bj1.subrange(0, bj.len() as int) == bj);
    } else {
        assert(objs.take(j as int) == objs);
    }
}

/// Each entry of the cross-reference table points at its object: at
/// `object_offset(objs, j)` the file reads `"{j + 1} 0 obj\n"`.
pub proof fn lemma_xref_points_at_objects(streams: Seq<Seq<u8>>, j: nat)
    requires
        j < pdf_objects(streams).len(),
    ensures
        ({
            let objs = pdf_objects(streams);
            let at = object_offset(objs, j);
            let mark = dec(j + 1) + ascii(" 0 obj\n"@);
            pdf_document(streams).subrange(at as int, (at + mark.len()) as int) == mark
        }),
{
    let objs = pdf_objects(streams);
    let mark = dec(j + 1) + ascii(" 0 obj\n"@);
    let before = pdf_body(objs.take(j as int));
    let upto = pdf_body(objs.take((j + 1) as int));
    lemma_body_prefix(objs, (j + 1) as nat);
    let t = objs.take((j + 1) as int);
    assert(t.drop_last() == objs.take(j as int));
    assert(t.last() == objs[j as int]);
    let fr = framed_object(j, objs[j as int]);
    assert(upto == before + fr);
    let doc = pdf_document(streams);
    let h = pdf_header();
    let at = h.len() + before.len();
    let whole = pdf_body(objs);
    assert(fr.subrange(0, mark.len() as int) == mark);
    assert(upto.subrange(before.len() as int, (before.len() + mark.len()) as int) == mark);
    assert(whole.subrange(0, upto.len() as int) == upto);
    assert(whole.subrange(before.len() as int, (before.len() + mark.len()) as int) == mark);
    assert(doc == h + whole + pdf_tail(objs, h.len() + whole.len()));
    assert(doc.subrange(at as int, (at + mark.len()) as int) == whole.subrange(
        before.len() as int,
        (before.len() + mark.len()) as int,
    ));
}

impl PdfBuilder {
    pub fn new() -> (r: Self)
        ensures
            r.pages@.len() == 0,
    {
        PdfBuilder { pages: Vec::new() }
    }

    /// Adds a page at the end.
    pub fn push_page(&mut self, page: PageContent)
        ensures
            final(self).pages@ == old(self).pages@.push(page),
    {
        self.pages.push(page);
    }

    /// The PDF file of the pages added.
    #[verifier::spinoff_prover]
    #[verifier::rlimit(40)]
    pub fn finish(self) -> (pdf: Vec<u8>)
        requires
            2 * self.pages@.len() + 9 <= usize::MAX,
        ensures
            pdf@ == pdf_document(streams_of(self.pages@)),
    {
        let ghost streams = streams_of(self.pages@);
        let ghost objs = pdf_objects(streams);
        let objects = build_objects(&self.pages);
        let mut pdf = ascii_bytes("%PDF-1.4\n%");
        pdf.push(0xE2u8);
        pdf.push(0xE3u8);
        pdf.push(0xCFu8);
        pdf.push(0xD3u8);
        append_bytes(&mut pdf, ascii_bytes("\n").as_slice());
        assert(pdf@ == pdf_header());
        let mut offsets: Vec<usize> = Vec::new();
        let mut j: usize = 0;
        while j < objects.len()
            invariant
                j <= objects@.len(),
                objs == pdf_objects(streams),
                bytes_view(objects@) == objs,
                pdf@ == pdf_header() + pdf_body(objs.take(j as int)),
                offsets@.len() == j,
                forall|k: int| 0 <= k < j ==> #[trigger] offsets@[k] == object_offset(objs, k as nat),
            decreases objects@.len() - j,
        {
            assert(objs[j as int] == objects@[j as int]@);
            let t = Ghost(objs.take((j + 1) as int));
            assert(t@.drop_last() == objs.take(j as int));
            offsets.push(pdf.len());
            append_bytes(&mut pdf, decimal(j + 1).as_slice());
            append_bytes(&mut pdf, ascii_bytes(" 0 obj\n").as_slice());
            append_bytes(&mut pdf, objects[j].as_slice());
            append_bytes(&mut pdf, ascii_bytes("\nendobj\n").as_slice());
            j = j + 1;
        }
        assert(objs.take(objs.len() as int) == objs);
        let xref_offset = pdf.len();
        let size = objects.len() + 1;
        append_bytes(&mut pdf, ascii_bytes("xref\n0 ").as_slice());
        append_bytes(&mut pdf, decimal(size).as_slice());
        append_bytes(&mut pdf, ascii_bytes("\n").as_slice());
        append_bytes(&mut pdf, ascii_bytes("0000000000 65535 f \n").as_slice());
        let ghost head = pdf@;
        let mut k: usize = 0;
        while k < offsets.len()
            invariant
                k <= offsets@.len(),
                offsets@.len() == objs.len(),
                forall|i: int| 0 <= i < offsets@.len() ==> #[trigger] offsets@[i] == object_offset(objs, i as nat),
                pdf@ == head + xref_entries(objs, k as nat),
            decreases offsets@.len() - k,
        {
            append_bytes(&mut pdf, decimal_padded(offsets[k]).as_slice());
            append_bytes(&mut pdf, ascii_bytes(" 00000 n \n").as_slice());
            k = k + 1;
        }
        append_bytes(&mut pdf, ascii_bytes("trailer\n<< /Size ").as_slice());
        append_bytes(&mut pdf, decimal(size).as_slice());
        append_bytes(&mut pdf, ascii_bytes(" /Root 1 0 R >>\nstartxref\n").as_slice());
        append_bytes(&mut pdf, decimal(xref_offset).as_slice());
        append_bytes(&mut pdf, ascii_bytes("\n%%EOF\n").as_slice());
        pdf
    }
}

/// The byte sequences held by a vector of byte vectors.
pub open spec fn bytes_view(v: Seq<Vec<u8>>) -> Seq<Seq<u8>> {
    v.map_values(|x: Vec<u8>| x@)
}

fn push_object(objects: &mut Vec<Vec<u8>>, obj: Vec<u8>)
    ensures
        bytes_view(final(objects)@) == bytes_view(old(objects)@).push(obj@),
{
    objects.push(obj);
    assert(bytes_view(objects@) == bytes_view(old(objects)@).push(obj@));
}

/// The objects of the document.
fn build_objects(pages: &Vec<PageContent>) -> (objects: Vec<Vec<u8>>)
    requires
        2 * pages@.len() + 9 <= usize::MAX,
    ensures
        bytes_view(objects@) == pdf_objects(streams_of(pages@)),
{
    let ghost streams = streams_of(pages@);
    let n = pages.len();
    let mut objects: Vec<Vec<u8>> = Vec::new();
    push_object(&mut objects, ascii_bytes("<< /Type /Catalog /Pages 2 0 R >>"));
    // the page tree
    let mut tree = ascii_bytes("<< /Type /Pages /Count ");
    append_bytes(&mut tree, decimal(n).as_slice());
    append_bytes(&mut tree, ascii_bytes(" /Kids [").as_slice());
    let ghost kids = Seq::new(n as nat, |k: int| kid(k as nat));
    let ghost tree_start = tree@;
    let mut k: usize = 0;
    while k < n
        invariant
            k <= n,
            n == pages@.len(),
            2 * n + 9 <= usize::MAX,
            kids == Seq::new(n as nat, |k: int| kid(k as nat)),
            tree@ == tree_start + join(kids.take(k as int), ascii(" "@)),
        decreases n - k,
    {
        let ghost before = kids.take(k as int);
        if k > 0 {
            append_bytes(&mut tree, ascii_bytes(" ").as_slice());
        }
        append_bytes(&mut tree, decimal(9 + k).as_slice());
        append_bytes(&mut tree, ascii_bytes(" 0 R").as_slice());
        k = k + 1;
        assert(kids.take(k as int).drop_last() == before);
        if k == 1 {
            assert(kids.take(1)[0] == kid(0));
        }
    }
    assert(kids.take(n as int) == kids);
    append_bytes(&mut tree, ascii_bytes("] >>").as_slice());
    push_object(&mut objects, tree);
    push_object(&mut objects, ascii_bytes("<< /Type /Font /Subtype /Type1 /BaseFont /Helvetica >>"));
    push_object(&mut objects, ascii_bytes("<< /Type /Font /Subtype /Type1 /BaseFont /Helvetica-Bold >>"));
    push_object(&mut objects, ascii_bytes("<< /Type /Font /Subtype /Type1 /BaseFont /Times-Roman >>"));
    push_object(&mut objects, ascii_bytes("<< /Type /Font /Subtype /Type1 /BaseFont /Times-Bold >>"));
    push_object(&mut objects, ascii_bytes("<< /Type /Font /Subtype /Type1 /BaseFont /Times-Italic >>"));
    push_object(&mut objects, ascii_bytes("<< /Type /Font /Subtype /Type1 /BaseFont /Courier >>"));
    let ghost fixed = bytes_view(objects@);
    assert(fixed == seq![catalog_object(), page_tree_object(n as nat)] + font_objects());
    let mut k: usize = 0;
    while k < n
        invariant
            k <= n,
            n == pages@.len(),
            2 * n + 9 <= usize::MAX,
            bytes_view(objects@) == fixed + Seq::new(k as nat, |i: int| page_object(n as nat, i as nat)),
        decreases n - k,
    {
        let mut obj = ascii_bytes(
            "<< /Type /Page /Parent 2 0 R /MediaBox [0 0 612 792] /Resources << /Font << /F1 3 0 R /F2 4 0 R /F3 5 0 R /F4 6 0 R /F5 7 0 R /F6 8 0 R >> >> /Contents ",
        );
        append_bytes(&mut obj, decimal(9 + n + k).as_slice());
        append_bytes(&mut obj, ascii_bytes(" 0 R >>").as_slice());
        push_object(&mut objects, obj);
        k = k + 1;
        assert(Seq::new(k as nat, |i: int| page_object(n as nat, i as nat)) == Seq::new(
            (k - 1) as nat,
            |i: int| page_object(n as nat, i as nat),
        ).push(page_object(n as nat, (k - 1) as nat)));
    }
    let ghost with_pages = bytes_view(objects@);
    let mut k: usize = 0;
    while k < n
        invariant
            k <= n,
            n == pages@.len(),
            streams == streams_of(pages@),
            bytes_view(objects@) == with_pages + streams.take(k as int).map_values(
                |s: Seq<u8>| stream_object(s),
            ),
        decreases n - k,
    {
        let stream = pages[k].stream.as_slice();
        assert(streams[k as int] == stream@);
        let mut obj = ascii_bytes("<< /Length ");
        append_bytes(&mut obj, decimal(stream.len()).as_slice());
        append_bytes(&mut obj, ascii_bytes(" >>\nstream\n").as_slice());
        append_bytes(&mut obj, stream);
        append_bytes(&mut obj, ascii_bytes("endstream").as_slice());
        push_object(&mut objects, obj);
        k = k + 1;
        assert(streams.take(k as int).map_values(|s: Seq<u8>| stream_object(s)) == streams.take(
            (k - 1) as int,
        ).map_values(|s: Seq<u8>| stream_object(s)).push(stream_object(streams[k - 1])));
    }
    assert(streams.take(n as int) == streams);
    objects
}

} // verus!

verus! {

/// Every page shows its own content: of `n` pages, page object `9 + k`
/// ends with `/Contents {9 + n + k} 0 R >>`, and object `9 + n + k` is the
/// stream object that holds the `k`-th page's content.
pub proof fn lemma_page_shows_its_own_stream(streams: Seq<Seq<u8>>, k: nat)
    requires
        k < streams.len(),
    ensures
        ({
            let n = streams.len();
            let objs = pdf_objects(streams);
            let page = objs[8 + k as int];
            let tail = ascii("/Contents "@) + dec(9 + n + k) + ascii(" 0 R >>"@);
            &&& objs.len() == 8 + 2 * n
            &&& tail.len() <= page.len()
            &&& page.subrange(page.len() - tail.len(), page.len() as int) == tail
            &&& objs[8 + n + k as int] == ascii("<< /Length "@) + dec(streams[k as int].len()) + ascii(
                " >>\nstream\n"@,
            ) + streams[k as int] + ascii("endstream"@)
        }),
{
    let n = streams.len();
    let objs = pdf_objects(streams);
    let head = seq![catalog_object(), page_tree_object(n)] + font_objects();
    let pages = Seq::new(n, |j: int| page_object(n, j as nat));
    let strs = streams.map_values(|s: Seq<u8>| stream_object(s));
    assert(objs == head + pages + strs);
    assert(head.len() == 8);
    assert(objs[8 + k as int] == pages[k as int]);
    assert(objs[8 + n + k as int] == strs[k as int]);
    reveal_strlit(
        "<< /Type /Page /Parent 2 0 R /MediaBox [0 0 612 792] /Resources << /Font << /F1 3 0 R /F2 4 0 R /F3 5 0 R /F4 6 0 R /F5 7 0 R /F6 8 0 R >> >> /Contents ",
    );
    reveal_strlit("/Contents ");
    let lit = "<< /Type /Page /Parent 2 0 R /MediaBox [0 0 612 792] /Resources << /Font << /F1 3 0 R /F2 4 0 R /F3 5 0 R /F4 6 0 R /F5 7 0 R /F6 8 0 R >> >> /Contents "@;
    let front = lit.subrange(0, lit.len() - 10);
    assert(lit == front + "/Contents "@);
    assert(ascii(lit) == ascii(front) + ascii("/Contents "@));
    let page = objs[8 + k as int];
    let num = dec(9 + n + k) + ascii(" 0 R >>"@);
    let tail = ascii("/Contents "@) + num;
    assert(page == ascii(front) + tail);
    assert(page.subrange(page.len() - tail.len(), page.len() as int) == tail);
}

} // verus!

# rust_book_tools

Tools that turn the sources of *The Rust Programming Language* into
printable books, with the text processing verified by Verus.

* `src/` is the verified library:
  * `text` — whitespace, trimming, searching, replacing, lines and words;
  * `markdown` — classifying and normalising source lines (list markers,
    tables, figures, code titles, inline HTML);
  * `parse` — the reader that turns a source file into blocks, stated as a
    line-by-line state machine;
  * `toc` — table-of-contents entries, page count and pages;
  * `wrap` — wrapping prose at word boundaries and code at a column budget;
  * `pdf` — fonts, string escaping, and the PDF file with its
    cross-reference table;
  * `sources` — the reading order of the source files and the output path;
  * `paths` — paths of the Typst export: joining, normalising, containment,
    relative paths (through the `pathdiff` crate);
  * `export` — the adapter interface of the Typst export and the command
    lines of pandoc and typst.
* `app/` is the `book_pdf` program: file and directory access, page
  geometry and drawing (floating point), and the Typst export that runs
  pandoc and typst.
* `tests/` holds the tests.

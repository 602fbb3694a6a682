//! The reader of the print-ready Markdown sources: turns the text of one
//! source file into a sequence of typeset blocks.
use vstd::prelude::*;

use crate::markdown::{
    extract_img_alt_chars, is_list_item_chars, is_ordered_item_chars, is_standalone_code_title_chars,
    join_wrapped_chars, lemma_list_item_strippable, looks_like_table_row_chars,
    sanitize_inline_html_chars, spec_extract_img_alt, spec_is_list_item, spec_is_ordered_item,
    spec_is_standalone_code_title, spec_join_wrapped_lines, spec_looks_like_table_row,
    spec_sanitize_inline_html, spec_strip_list_marker, strip_list_marker_chars,
};
use crate::text::{
    chars_eq, chars_of, contains, contains_exec, copy_range, deep_chars, has_prefix, join, join_exec,
    split_lines, split_lines_exec, starts_with, string_of, trim, trim_chars, trim_start,
    trim_start_chars,
};

verus! {

broadcast use vstd::string::group_string_axioms;

/// The vertical space, in points, left after each code block.
pub const CODE_BLOCK_SPACING: u32 = 4;

/// One typeset block of a source file.
#[derive(Debug, PartialEq)]
pub enum Block {
    Heading { level: u8, text: String },
    Paragraph(String),
    CodeBlock { title: Option<String>, code: String },
    Quote(String),
    List { ordered: bool, items: Vec<String> },
    Table(Vec<String>),
    Figure(String),
    /// Vertical space, in points.
    Spacer(u32),
}

/// A block, with its text as character sequences.
pub enum SpecBlock {
    Heading { level: u8, text: Seq<char> },
    Paragraph(Seq<char>),
    CodeBlock { title: Option<Seq<char>>, code: Seq<char> },
    Quote(Seq<char>),
    List { ordered: bool, items: Seq<Seq<char>> },
    Table(Seq<Seq<char>>),
    Figure(Seq<char>),
    Spacer(u32),
}

pub open spec fn opt_view(o: Option<String>) -> Option<Seq<char>> {
    match o {
        Some(s) => Some(s@),
        None => None,
    }
}

pub open spec fn strings_view(v: Seq<String>) -> Seq<Seq<char>> {
    v.map_values(|x: String| x@)
}

impl View for Block {
    type V = SpecBlock;

    open spec fn view(&self) -> SpecBlock {
        match self {
            Block::Heading { level, text } => SpecBlock::Heading { level: *level, text: text@ },
            Block::Paragraph(t) => SpecBlock::Paragraph(t@),
            Block::CodeBlock { title, code } => SpecBlock::CodeBlock {
                title: opt_view(*title),
                code: code@,
            },
            Block::Quote(t) => SpecBlock::Quote(t@),
            Block::List { ordered, items } => SpecBlock::List {
                ordered: *ordered,
                items: strings_view(items@),
            },
            Block::Table(rows) => SpecBlock::Table(strings_view(rows@)),
            Block::Figure(t) => SpecBlock::Figure(t@),
            Block::Spacer(p) => SpecBlock::Spacer(*p),
        }
    }
}

pub open spec fn blocks_view(v: Seq<Block>) -> Seq<SpecBlock> {
    v.map_values(|b: Block| b@)
}

// ---------------------------------------------------------------------------
// The reader as a line-by-line state machine
// ---------------------------------------------------------------------------

/// What the reader is in the middle of.
pub enum Mode {
    /// Between blocks.
    Between,
    /// Inside a fenced code block, with the lines read so far.
    Code { title: Option<Seq<char>>, lines: Seq<Seq<char>> },
    /// Inside a block quote, with its lines so far.
    Quote { lines: Seq<Seq<char>> },
    /// Inside a list, with its items so far.
    List { ordered: bool, items: Seq<Seq<char>> },
    /// Inside a table, with its rows so far.
    Table { rows: Seq<Seq<char>> },
    /// Inside a paragraph, with its lines so far.
    Para { lines: Seq<Seq<char>> },
}

/// The reader's state before a line.
pub struct ReadState {
    pub mode: Mode,
    /// Inside an HTML comment that has not been closed yet.
    pub in_comment: bool,
    /// The file name read just before a code block, waiting for that block.
    pub pending_title: Option<Seq<char>>,
}

/// What reading one line does: the blocks it completes, whether the line
/// was used up (a line that ends a quote, list, table or paragraph without
/// belonging to it is read again between blocks), and the state after it.
pub struct Step {
    pub emitted: Seq<SpecBlock>,
    pub consumed: bool,
    pub next: ReadState,
}

pub open spec fn between(in_comment: bool, pending_title: Option<Seq<char>>) -> ReadState {
    ReadState { mode: Mode::Between, in_comment, pending_title }
}

/// Number of `'#'` that `s` begins with.
pub open spec fn leading_hashes(s: Seq<char>) -> nat
    decreases s.len(),
{
    if s.len() > 0 && s[0] == '#' {
        1 + leading_hashes(s.drop_first())
    } else {
        0
    }
}

/// `s` without the `'>'` characters it begins with.
pub open spec fn strip_quote_marks(s: Seq<char>) -> Seq<char>
    decreases s.len(),
{
    if s.len() > 0 && s[0] == '>' {
        strip_quote_marks(s.drop_first())
    } else {
        s
    }
}

/// The heading level, as the source's `u8` holds it: the number of leading
/// `'#'`, modulo 256.
pub open spec fn heading_level(t: Seq<char>) -> u8 {
    (leading_hashes(t) % 256) as u8
}

/// The line after `i`, if there is one.
pub open spec fn line_after(lines: Seq<Seq<char>>, i: int) -> Option<Seq<char>> {
    if i + 1 < lines.len() {
        Some(lines[i + 1])
    } else {
        None
    }
}

/// Reading line `i` between blocks.
pub open spec fn step_between(
    lines: Seq<Seq<char>>,
    i: int,
    in_comment: bool,
    pending: Option<Seq<char>>,
) -> Step {
    let t = trim(lines[i]);
    if in_comment {
        Step { emitted: seq![], consumed: true, next: between(!contains(t, "-->"@), pending) }
    } else if has_prefix(t, "<!--"@) {
        Step { emitted: seq![], consumed: true, next: between(!contains(t, "-->"@), pending) }
    } else if t.len() == 0 {
        Step { emitted: seq![], consumed: true, next: between(false, None) }
    } else if t == "[TOC]"@ || has_prefix(t, "<a id="@) {
        Step { emitted: seq![], consumed: true, next: between(false, pending) }
    } else if spec_extract_img_alt(t) is Some {
        Step {
            emitted: seq![SpecBlock::Figure(spec_extract_img_alt(t)->0)],
            consumed: true,
            next: between(false, pending),
        }
    } else if has_prefix(t, "```"@) {
        Step {
            emitted: seq![],
            consumed: true,
            next: ReadState {
                mode: Mode::Code { title: pending, lines: seq![] },
                in_comment: false,
                pending_title: None,
            },
        }
    } else if spec_is_standalone_code_title(t, line_after(lines, i)) {
        Step { emitted: seq![], consumed: true, next: between(false, Some(t)) }
    } else if has_prefix(t, "#"@) {
        let level = heading_level(t);
        Step {
            emitted: seq![SpecBlock::Heading { level, text: trim(t.skip(level as int)) }],
            consumed: true,
            next: between(false, pending),
        }
    } else if has_prefix(t, ">"@) {
        Step {
            emitted: seq![],
            consumed: true,
            next: ReadState {
                mode: Mode::Quote { lines: seq![trim(strip_quote_marks(t))] },
                in_comment: false,
                pending_title: pending,
            },
        }
    } else if spec_is_list_item(t) {
        Step {
            emitted: seq![],
            consumed: true,
            next: ReadState {
                mode: Mode::List {
                    ordered: spec_is_ordered_item(t),
                    items: seq![spec_strip_list_marker(t)->0],
                },
                in_comment: false,
                pending_title: pending,
            },
        }
    } else if spec_looks_like_table_row(t) {
        Step {
            emitted: seq![],
            consumed: true,
            next: ReadState {
                mode: Mode::Table { rows: seq![t] },
                in_comment: false,
                pending_title: pending,
            },
        }
    } else {
        Step {
            emitted: seq![],
            consumed: true,
            next: ReadState {
                mode: Mode::Para { lines: seq![spec_sanitize_inline_html(t)] },
                in_comment: false,
                pending_title: pending,
            },
        }
    }
}

/// A line that ends a paragraph without belonging to it.
pub open spec fn ends_paragraph(t: Seq<char>) -> bool {
    ||| t.len() == 0
    ||| has_prefix(t, "#"@)
    ||| has_prefix(t, ">"@)
    ||| has_prefix(t, "```"@)
    ||| spec_looks_like_table_row(t)
    ||| spec_is_list_item(t)
    ||| has_prefix(t, "<!--"@)
    ||| has_prefix(t, "<a id="@)
}

/// The blocks that a state completes when the input ends (or when the
/// open block is closed).
pub open spec fn close_mode(mode: Mode) -> Seq<SpecBlock> {
    match mode {
        Mode::Between => seq![],
        Mode::Code { title, lines } => seq![
            SpecBlock::CodeBlock { title, code: join(lines, "\n"@) },
            SpecBlock::Spacer(CODE_BLOCK_SPACING),
        ],
        Mode::Quote { lines } => seq![SpecBlock::Quote(spec_join_wrapped_lines(lines))],
        Mode::List { ordered, items } => seq![SpecBlock::List { ordered, items }],
        Mode::Table { rows } => seq![SpecBlock::Table(rows)],
        Mode::Para { lines } => seq![SpecBlock::Paragraph(spec_join_wrapped_lines(lines))],
    }
}

/// Reading line `i` in state `st`.
pub open spec fn step(lines: Seq<Seq<char>>, i: int, st: ReadState) -> Step {
    let line = lines[i];
    let t = trim(line);
    let pending = st.pending_title;
    match st.mode {
        Mode::Between => step_between(lines, i, st.in_comment, pending),
        Mode::Code { title, lines: code } => if has_prefix(trim_start(line), "```"@) {
            Step { emitted: close_mode(st.mode), consumed: true, next: between(false, None) }
        } else {
            Step {
                emitted: seq![],
                consumed: true,
                next: ReadState {
                    mode: Mode::Code { title, lines: code.push(line) },
                    in_comment: false,
                    pending_title: None,
                },
            }
        },
        Mode::Quote { lines: quote } => if has_prefix(trim_start(line), ">"@) {
            Step {
                emitted: seq![],
                consumed: true,
                next: ReadState {
                    mode: Mode::Quote {
                        lines: quote.push(trim(strip_quote_marks(trim_start(line)))),
                    },
                    in_comment: false,
                    pending_title: pending,
                },
            }
        } else {
            Step { emitted: close_mode(st.mode), consumed: t.len() == 0, next: between(false, pending) }
        },
        Mode::List { ordered, items } => if t.len() == 0 {
            Step { emitted: close_mode(st.mode), consumed: true, next: between(false, pending) }
        } else if spec_is_list_item(t) && spec_is_ordered_item(t) == ordered {
            Step {
                emitted: seq![],
                consumed: true,
                next: ReadState {
                    mode: Mode::List { ordered, items: items.push(spec_strip_list_marker(t)->0) },
                    in_comment: false,
                    pending_title: pending,
                },
            }
        } else {
            Step { emitted: close_mode(st.mode), consumed: false, next: between(false, pending) }
        },
        Mode::Table { rows } => if spec_looks_like_table_row(t) {
            Step {
                emitted: seq![],
                consumed: true,
                next: ReadState {
                    mode: Mode::Table { rows: rows.push(t) },
                    in_comment: false,
                    pending_title: pending,
                },
            }
        } else {
            Step { emitted: close_mode(st.mode), consumed: false, next: between(false, pending) }
        },
        Mode::Para { lines: para } => if ends_paragraph(t) {
            Step { emitted: close_mode(st.mode), consumed: false, next: between(false, pending) }
        } else if spec_extract_img_alt(t) is Some {
            Step {
                emitted: close_mode(st.mode) + seq![
                    SpecBlock::Figure(spec_extract_img_alt(t)->0),
                ],
                consumed: true,
                next: between(false, pending),
            }
        } else {
            Step {
                emitted: seq![],
                consumed: true,
                next: ReadState {
                    mode: Mode::Para { lines: para.push(spec_sanitize_inline_html(t)) },
                    in_comment: false,
                    pending_title: pending,
                },
            }
        },
    }
}

/// 0 between blocks, 1 inside one: a line that is not used up is always
/// read again between blocks.
pub open spec fn mode_rank(m: Mode) -> nat {
    match m {
        Mode::Between => 0,
        _ => 1,
    }
}

/// The blocks read from line `i` on, in state `st`.
pub open spec fn read_from(lines: Seq<Seq<char>>, i: int, st: ReadState) -> Seq<SpecBlock>
    decreases lines.len() - i, mode_rank(st.mode),
{
    if i < 0 || i >= lines.len() {
        close_mode(st.mode)
    } else {
        let s = step(lines, i, st);
        if s.consumed {
            s.emitted + read_from(lines, i + 1, s.next)
        } else {
            s.emitted + read_from(lines, i, s.next)
        }
    }
}

/// The blocks of a source file.
pub open spec fn spec_parse_markdown(input: Seq<char>) -> Seq<SpecBlock> {
    read_from(split_lines(input), 0, between(false, None))
}

} // verus!

verus! {

// ---------------------------------------------------------------------------
// The executable reader
// ---------------------------------------------------------------------------

enum ReaderMode {
    Between,
    Code { title: Option<Vec<char>>, lines: Vec<Vec<char>> },
    Quote { lines: Vec<Vec<char>> },
    List { ordered: bool, items: Vec<Vec<char>> },
    Table { rows: Vec<Vec<char>> },
    Para { lines: Vec<Vec<char>> },
}

spec fn opt_chars(o: Option<Vec<char>>) -> Option<Seq<char>> {
    match o {
        Some(v) => Some(v@),
        None => None,
    }
}

impl View for ReaderMode {
    type V = Mode;

    closed spec fn view(&self) -> Mode {
        match self {
            ReaderMode::Between => Mode::Between,
            ReaderMode::Code { title, lines } => Mode::Code {
                title: opt_chars(*title),
                lines: deep_chars(lines@),
            },
            ReaderMode::Quote { lines } => Mode::Quote { lines: deep_chars(lines@) },
            ReaderMode::List { ordered, items } => Mode::List {
                ordered: *ordered,
                items: deep_chars(items@),
            },
            ReaderMode::Table { rows } => Mode::Table { rows: deep_chars(rows@) },
            ReaderMode::Para { lines } => Mode::Para { lines: deep_chars(lines@) },
        }
    }
}

struct Reader {
    mode: ReaderMode,
    in_comment: bool,
    pending_title: Option<Vec<char>>,
}

impl View for Reader {
    type V = ReadState;

    closed spec fn view(&self) -> ReadState {
        ReadState {
            mode: self.mode@,
            in_comment: self.in_comment,
            pending_title: opt_chars(self.pending_title),
        }
    }
}

/// Converts character vectors into strings.
pub fn strings_of(v: &Vec<Vec<char>>) -> (r: Vec<String>)
    ensures
        strings_view(r@) == deep_chars(v@),
{
    let mut r: Vec<String> = Vec::new();
    let mut i: usize = 0;
    while i < v.len()
        invariant
            i <= v@.len(),
            strings_view(r@) == deep_chars(v@).take(i as int),
        decreases v@.len() - i,
    {
        let s = string_of(v[i].as_slice());
        let ghost before = strings_view(r@);
        r.push(s);
        assert(strings_view(r@) == before.push(s@));
        i = i + 1;
        assert(deep_chars(v@).take(i as int) == deep_chars(v@).take(i - 1).push(v@[i - 1]@));
    }
    assert(deep_chars(v@).take(v@.len() as int) == deep_chars(v@));
    r
}

fn push_block(out: &mut Vec<Block>, b: Block)
    ensures
        blocks_view(final(out)@) == blocks_view(old(out)@).push(b@),
{
    out.push(b);
    assert(blocks_view(out@) == blocks_view(old(out)@).push(b@));
}

/// Number of `'#'` that `s` begins with.
fn leading_hashes_exec(s: &[char]) -> (n: usize)
    ensures
        n == leading_hashes(s@),
        n <= s@.len(),
{
    let mut k: usize = 0;
    assert(s@.skip(0) == s@);
    while k < s.len() && s[k] == '#'
        invariant
            k <= s@.len(),
            leading_hashes(s@) == k + leading_hashes(s@.skip(k as int)),
        decreases s@.len() - k,
    {
        assert(s@.skip(k as int).drop_first() == s@.skip(k + 1));
        k = k + 1;
    }
    k
}

/// `s` without the `'>'` it begins with.
fn strip_quote_marks_exec(s: &[char]) -> (v: Vec<char>)
    ensures
        v@ == strip_quote_marks(s@),
{
    let mut k: usize = 0;
    assert(s@.skip(0) == s@);
    while k < s.len() && s[k] == '>'
        invariant
            k <= s@.len(),
            strip_quote_marks(s@) == strip_quote_marks(s@.skip(k as int)),
        decreases s@.len() - k,
    {
        assert(s@.skip(k as int).drop_first() == s@.skip(k + 1));
        k = k + 1;
    }
    copy_range(s, k, s.len())
}

/// Emits the blocks that closing `mode` completes.
fn close_mode_exec(mode: ReaderMode, out: &mut Vec<Block>)
    ensures
        blocks_view(final(out)@) == blocks_view(old(out)@) + close_mode(mode@),
{
    let ghost m = mode@;
    match mode {
        ReaderMode::Between => {
            assert(blocks_view(out@) + Seq::<SpecBlock>::empty() == blocks_view(out@));
        },
        ReaderMode::Code { title, lines } => {
            let newline = chars_of("\n");
            let code = join_exec(&lines, newline.as_slice());
            let title_string = match title {
                Some(t) => Some(string_of(t.as_slice())),
                None => None,
            };
            let ghost before = blocks_view(out@);
            push_block(out, Block::CodeBlock { title: title_string, code: string_of(code.as_slice()) });
            push_block(out, Block::Spacer(CODE_BLOCK_SPACING));
            assert(blocks_view(out@) == before + close_mode(m));
        },
        ReaderMode::Quote { lines } => {
            let text = join_wrapped_chars(&lines);
            let ghost before = blocks_view(out@);
            push_block(out, Block::Quote(string_of(text.as_slice())));
            assert(blocks_view(out@) == before + close_mode(m));
        },
        ReaderMode::List { ordered, items } => {
            let ghost before = blocks_view(out@);
            push_block(out, Block::List { ordered, items: strings_of(&items) });
            assert(blocks_view(out@) == before + close_mode(m));
        },
        ReaderMode::Table { rows } => {
            let ghost before = blocks_view(out@);
            push_block(out, Block::Table(strings_of(&rows)));
            assert(blocks_view(out@) == before + close_mode(m));
        },
        ReaderMode::Para { lines } => {
            let text = join_wrapped_chars(&lines);
            let ghost before = blocks_view(out@);
            push_block(out, Block::Paragraph(string_of(text.as_slice())));
            assert(blocks_view(out@) == before + close_mode(m));
        },
    }
}

fn between_reader(in_comment: bool, pending_title: Option<Vec<char>>) -> (r: Reader)
    ensures
        r@ == between(in_comment, opt_chars(pending_title)),
{
    Reader { mode: ReaderMode::Between, in_comment, pending_title }
}

fn one_line(v: Vec<char>) -> (r: Vec<Vec<char>>)
    ensures
        deep_chars(r@) == seq![v@],
{
    let mut r: Vec<Vec<char>> = Vec::new();
    r.push(v);
    assert(deep_chars(r@) == seq![r@[0]@]);
    r
}

fn push_line(lines: &mut Vec<Vec<char>>, v: Vec<char>)
    ensures
        deep_chars(final(lines)@) == deep_chars(old(lines)@).push(v@),
{
    lines.push(v);
    assert(deep_chars(lines@) == deep_chars(old(lines)@).push(v@));
}

/// Reads line `i` between blocks.
fn step_between_exec(
    lines: &Vec<Vec<char>>,
    i: usize,
    in_comment: bool,
    pending: Option<Vec<char>>,
    out: &mut Vec<Block>,
) -> (next: Reader)
    requires
        i < lines@.len(),
    ensures
        ({
            let s = step_between(deep_chars(lines@), i as int, in_comment, opt_chars(pending));
            &&& s.consumed
            &&& blocks_view(final(out)@) == blocks_view(old(out)@) + s.emitted
            &&& next@ == s.next
        }),
{
    let ghost ls = deep_chars(lines@);
    assert(ls[i as int] == lines@[i as int]@);
    let t = trim_chars(lines[i].as_slice());
    let close = chars_of("-->");
    let open = chars_of("<!--");
    let toc = chars_of("[TOC]");
    let anchor = chars_of("<a id=");
    let fence = chars_of("```");
    let hash = chars_of("#");
    let gt = chars_of(">");
    let ghost before = blocks_view(out@);
    proof {
        assert(before + Seq::<SpecBlock>::empty() == before);
    }
    if in_comment {
        return between_reader(!contains_exec(t.as_slice(), close.as_slice()), pending);
    }
    if starts_with(t.as_slice(), open.as_slice()) {
        return between_reader(!contains_exec(t.as_slice(), close.as_slice()), pending);
    }
    if t.len() == 0 {
        return between_reader(false, None);
    }
    if chars_eq(t.as_slice(), toc.as_slice()) || starts_with(t.as_slice(), anchor.as_slice()) {
        return between_reader(false, pending);
    }
    match extract_img_alt_chars(t.as_slice()) {
        Some(alt) => {
            push_block(out, Block::Figure(string_of(alt.as_slice())));
            return between_reader(false, pending);
        },
        None => {},
    }
    if starts_with(t.as_slice(), fence.as_slice()) {
        let empty: Vec<Vec<char>> = Vec::new();
        assert(deep_chars(empty@) == Seq::<Seq<char>>::empty());
        return Reader {
            mode: ReaderMode::Code { title: pending, lines: empty },
            in_comment: false,
            pending_title: None,
        };
    }
    let n = lines.len();
    let next_line: Option<Vec<char>> = if i + 1 < n {
        assert(ls[i + 1] == lines@[i + 1]@);
        Some(copy_range(lines[i + 1].as_slice(), 0, lines[i + 1].len()))
    } else {
        None
    };
    proof {
        if i + 1 < lines@.len() {
            assert(lines@[i + 1]@.subrange(0, lines@[i + 1]@.len() as int) == lines@[i + 1]@);
        }
    }
    if is_standalone_code_title_chars(t.as_slice(), &next_line) {
        return between_reader(false, Some(t));
    }
    if starts_with(t.as_slice(), hash.as_slice()) {
        let n = leading_hashes_exec(t.as_slice());
        let level = (n % 256) as u8;
        let rest = copy_range(t.as_slice(), level as usize, t.len());
        let text = trim_chars(rest.as_slice());
        push_block(out, Block::Heading { level, text: string_of(text.as_slice()) });
        return between_reader(false, pending);
    }
    if starts_with(t.as_slice(), gt.as_slice()) {
        let q = strip_quote_marks_exec(t.as_slice());
        let first = trim_chars(q.as_slice());
        return Reader {
            mode: ReaderMode::Quote { lines: one_line(first) },
            in_comment: false,
            pending_title: pending,
        };
    }
    if is_list_item_chars(t.as_slice()) {
        proof {
            lemma_list_item_strippable(t@);
        }
        let ordered = is_ordered_item_chars(t.as_slice());
        let item = strip_list_marker_chars(t.as_slice());
        return Reader {
            mode: ReaderMode::List { ordered, items: one_line(item) },
            in_comment: false,
            pending_title: pending,
        };
    }
    if looks_like_table_row_chars(t.as_slice()) {
        return Reader {
            mode: ReaderMode::Table { rows: one_line(t) },
            in_comment: false,
            pending_title: pending,
        };
    }
    let first = sanitize_inline_html_chars(t.as_slice());
    Reader {
        mode: ReaderMode::Para { lines: one_line(first) },
        in_comment: false,
        pending_title: pending,
    }
}

/// Reads line `i` in state `st`: returns whether the line was used up and
/// the state after it.
fn step_exec(lines: &Vec<Vec<char>>, i: usize, st: Reader, out: &mut Vec<Block>) -> (r: (
    bool,
    Reader,
))
    requires
        i < lines@.len(),
    ensures
        ({
            let s = step(deep_chars(lines@), i as int, st@);
            &&& blocks_view(final(out)@) == blocks_view(old(out)@) + s.emitted
            &&& r.0 == s.consumed
            &&& r.1@ == s.next
        }),
{
    let ghost ls = deep_chars(lines@);
    let ghost st0 = st@;
    assert(ls[i as int] == lines@[i as int]@);
    let line = lines[i].as_slice();
    let ghost before = blocks_view(out@);
    proof {
        assert(before + Seq::<SpecBlock>::empty() == before);
    }
    let Reader { mode, in_comment, pending_title } = st;
    match mode {
        ReaderMode::Between => {
            let next = step_between_exec(lines, i, in_comment, pending_title, out);
            (true, next)
        },
        ReaderMode::Code { title, lines: code } => {
            let fence = chars_of("```");
            let ts = trim_start_chars(line);
            if starts_with(ts.as_slice(), fence.as_slice()) {
                close_mode_exec(ReaderMode::Code { title, lines: code }, out);
                (true, between_reader(false, None))
            } else {
                let mut code = code;
                push_line(&mut code, copy_range(line, 0, line.len()));
                assert(line@.subrange(0, line@.len() as int) == line@);
                (true, Reader { mode: ReaderMode::Code { title, lines: code }, in_comment: false, pending_title: None })
            }
        },
        ReaderMode::Quote { lines: quote } => {
            let gt = chars_of(">");
            let ts = trim_start_chars(line);
            if starts_with(ts.as_slice(), gt.as_slice()) {
                let q = strip_quote_marks_exec(ts.as_slice());
                let mut quote = quote;
                push_line(&mut quote, trim_chars(q.as_slice()));
                (true, Reader { mode: ReaderMode::Quote { lines: quote }, in_comment: false, pending_title })
            } else {
                let t = trim_chars(line);
                close_mode_exec(ReaderMode::Quote { lines: quote }, out);
                (t.len() == 0, between_reader(false, pending_title))
            }
        },
        ReaderMode::List { ordered, items } => {
            let t = trim_chars(line);
            if t.len() == 0 {
                close_mode_exec(ReaderMode::List { ordered, items }, out);
                (true, between_reader(false, pending_title))
            } else if is_list_item_chars(t.as_slice()) && is_ordered_item_chars(t.as_slice()) == ordered {
                proof {
                    lemma_list_item_strippable(t@);
                }
                let mut items = items;
                push_line(&mut items, strip_list_marker_chars(t.as_slice()));
                (true, Reader { mode: ReaderMode::List { ordered, items }, in_comment: false, pending_title })
            } else {
                close_mode_exec(ReaderMode::List { ordered, items }, out);
                (false, between_reader(false, pending_title))
            }
        },
        ReaderMode::Table { rows } => {
            let t = trim_chars(line);
            if looks_like_table_row_chars(t.as_slice()) {
                let mut rows = rows;
                push_line(&mut rows, t);
                (true, Reader { mode: ReaderMode::Table { rows }, in_comment: false, pending_title })
            } else {
                close_mode_exec(ReaderMode::Table { rows }, out);
                (false, between_reader(false, pending_title))
            }
        },
        ReaderMode::Para { lines: para } => {
            let t = trim_chars(line);
            if ends_paragraph_exec(t.as_slice()) {
                close_mode_exec(ReaderMode::Para { lines: para }, out);
                (false, between_reader(false, pending_title))
            } else {
                match extract_img_alt_chars(t.as_slice()) {
                    Some(alt) => {
                        close_mode_exec(ReaderMode::Para { lines: para }, out);
                        let ghost mid = blocks_view(out@);
                        push_block(out, Block::Figure(string_of(alt.as_slice())));
                        assert(blocks_view(out@) == before + (close_mode(st0.mode) + seq![SpecBlock::Figure(alt@)]));
                        (true, between_reader(false, pending_title))
                    },
                    None => {
                        let mut para = para;
                        push_line(&mut para, sanitize_inline_html_chars(t.as_slice()));
                        (true, Reader { mode: ReaderMode::Para { lines: para }, in_comment: false, pending_title })
                    },
                }
            }
        },
    }
}

fn ends_paragraph_exec(t: &[char]) -> (b: bool)
    ensures
        b == ends_paragraph(t@),
{
    let hash = chars_of("#");
    let gt = chars_of(">");
    let fence = chars_of("```");
    let open = chars_of("<!--");
    let anchor = chars_of("<a id=");
    t.len() == 0 || starts_with(t, hash.as_slice()) || starts_with(t, gt.as_slice())
        || starts_with(t, fence.as_slice()) || looks_like_table_row_chars(t) || is_list_item_chars(t)
        || starts_with(t, open.as_slice()) || starts_with(t, anchor.as_slice())
}

/// Reads the blocks of a source file's text.
pub fn parse_markdown(input: &str) -> (blocks: Vec<Block>)
    ensures
        blocks_view(blocks@) == spec_parse_markdown(input@),
{
    let chars = chars_of(input);
    let lines = split_lines_exec(chars.as_slice());
    let ghost ls = deep_chars(lines@);
    let mut out: Vec<Block> = Vec::new();
    let mut st = between_reader(false, None);
    let mut i: usize = 0;
    assert(blocks_view(out@) == Seq::<SpecBlock>::empty());
    while i < lines.len()
        invariant
            i <= lines@.len(),
            ls == deep_chars(lines@),
            ls == split_lines(input@),
            blocks_view(out@) + read_from(ls, i as int, st@) == spec_parse_markdown(input@),
        decreases lines@.len() - i, mode_rank(st@.mode),
    {
        let ghost old_out = blocks_view(out@);
        let ghost s = step(ls, i as int, st@);
        let (consumed, next) = step_exec(&lines, i, st, &mut out);
        if consumed {
            i = i + 1;
        }
        st = next;
        assert(old_out + (s.emitted + read_from(ls, i as int, st@)) == blocks_view(out@) + read_from(ls, i as int, st@));
    }
    let ghost old_out = blocks_view(out@);
    let Reader { mode, in_comment: _, pending_title: _ } = st;
    close_mode_exec(mode, &mut out);
    out
}

} // verus!

verus! {

/// Inside a code block, the lines up to the next fence are taken as they
/// are: the block holds them joined by newlines, and reading goes on
/// between blocks after the fence.
pub proof fn lemma_code_runs_to_fence(
    lines: Seq<Seq<char>>,
    k: int,
    j: int,
    title: Option<Seq<char>>,
    code: Seq<Seq<char>>,
    in_comment: bool,
    pending: Option<Seq<char>>,
)
    requires
        0 <= k <= j < lines.len(),
        forall|m: int| k <= m < j ==> !has_prefix(trim_start(#[trigger] lines[m]), "```"@),
        has_prefix(trim_start(lines[j]), "```"@),
    ensures
        read_from(
            lines,
            k,
            ReadState { mode: Mode::Code { title, lines: code }, in_comment, pending_title: pending },
        ) == seq![
            SpecBlock::CodeBlock { title, code: join(code + lines.subrange(k, j), "\n"@) },
            SpecBlock::Spacer(CODE_BLOCK_SPACING),
        ] + read_from(lines, j + 1, between(false, None)),
    decreases j - k,
{
    if k == j {
        assert(code + lines.subrange(k, j) == code);
    } else {
        lemma_code_runs_to_fence(lines, k + 1, j, title, code.push(lines[k]), false, None);
        assert(code.push(lines[k]) + lines.subrange(k + 1, j) == code + lines.subrange(k, j));
    }
}

/// A fence ends a paragraph: where the reader is in a paragraph and the
/// next line begins with three backticks (and holds no image), the
/// paragraph is finished, and a code block follows that holds exactly the
/// lines up to the closing fence; the fence line never becomes part of the
/// paragraph.
pub proof fn lemma_fence_ends_paragraph(
    lines: Seq<Seq<char>>,
    i: int,
    j: int,
    para: Seq<Seq<char>>,
    in_comment: bool,
    pending: Option<Seq<char>>,
)
    requires
        0 <= i < j < lines.len(),
        has_prefix(trim(lines[i]), "```"@),
        spec_extract_img_alt(trim(lines[i])) is None,
        forall|m: int| i < m < j ==> !has_prefix(trim_start(#[trigger] lines[m]), "```"@),
        has_prefix(trim_start(lines[j]), "```"@),
    ensures
        read_from(
            lines,
            i,
            ReadState { mode: Mode::Para { lines: para }, in_comment, pending_title: pending },
        ) == seq![
            SpecBlock::Paragraph(spec_join_wrapped_lines(para)),
            SpecBlock::CodeBlock { title: pending, code: join(lines.subrange(i + 1, j), "\n"@) },
            SpecBlock::Spacer(CODE_BLOCK_SPACING),
        ] + read_from(lines, j + 1, between(false, None)),
{
    let t = trim(lines[i]);
    reveal_strlit("```");
    reveal_strlit("<!--");
    reveal_strlit("[TOC]");
    reveal_strlit("<a id=");
    assert(t.subrange(0, 3) == "```"@);
    assert(t[0] == t.subrange(0, 3)[0]);
    assert(t[0] == '`');
    assert(!has_prefix(t, "<!--"@)) by {
        if has_prefix(t, "<!--"@) {
            assert(t[0] == t.subrange(0, 4)[0]);
        }
    }
    assert(t != "[TOC]"@) by {
        if t == "[TOC]"@ {
            assert("[TOC]"@[0] == '[');
        }
    }
    assert(!has_prefix(t, "<a id="@)) by {
        if has_prefix(t, "<a id="@) {
            assert(t[0] == t.subrange(0, 6)[0]);
        }
    }
    assert(ends_paragraph(t));
    let st0 = ReadState { mode: Mode::Para { lines: para }, in_comment, pending_title: pending };
    let st1 = between(false, pending);
    let st2 = ReadState {
        mode: Mode::Code { title: pending, lines: Seq::empty() },
        in_comment: false,
        pending_title: None,
    };
    let s0 = step(lines, i, st0);
    assert(s0.emitted == seq![SpecBlock::Paragraph(spec_join_wrapped_lines(para))]);
    assert(!s0.consumed && s0.next == st1);
    assert(read_from(lines, i, st0) == s0.emitted + read_from(lines, i, st1));
    let s1 = step(lines, i, st1);
    assert(s1.emitted == Seq::<SpecBlock>::empty());
    assert(s1.consumed && s1.next == st2);
    assert(read_from(lines, i, st1) == s1.emitted + read_from(lines, i + 1, st2));
    lemma_code_runs_to_fence(lines, i + 1, j, pending, Seq::empty(), false, None);
    assert(Seq::<Seq<char>>::empty() + lines.subrange(i + 1, j) == lines.subrange(i + 1, j));
}

} // verus!

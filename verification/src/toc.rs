//! The table of contents: which headings it lists, how many pages it takes,
//! and which entries go on which page.
use vstd::prelude::*;

use crate::parse::{blocks_view, Block, SpecBlock};

verus! {

/// One line of the table of contents.
#[derive(Debug, PartialEq)]
pub struct TocEntry {
    pub title: String,
    pub level: u8,
    /// The page the heading is on (0 until the layout is known).
    pub page: usize,
}

/// A table-of-contents entry, with its title as characters.
pub struct TocView {
    pub title: Seq<char>,
    pub level: u8,
    pub page: usize,
}

impl View for TocEntry {
    type V = TocView;

    open spec fn view(&self) -> TocView {
        TocView { title: self.title@, level: self.level, page: self.page }
    }
}

pub open spec fn entries_view(v: Seq<TocEntry>) -> Seq<TocView> {
    v.map_values(|e: TocEntry| e@)
}

impl TocEntry {
    /// A copy of the entry.
    pub fn duplicate(&self) -> (r: TocEntry)
        ensures
            r@ == self@,
    {
        TocEntry { title: self.title.clone(), level: self.level, page: self.page }
    }
}

/// The entry a block contributes: chapter and section headings (levels 1
/// and 2), with page 0.
pub open spec fn toc_entry_of(b: SpecBlock) -> Option<TocView> {
    match b {
        SpecBlock::Heading { level, text } => if level <= 2 {
            Some(TocView { title: text, level, page: 0 })
        } else {
            None
        },
        _ => None,
    }
}

/// The entries of the blocks, in order.
pub open spec fn spec_collect_toc_entries(blocks: Seq<SpecBlock>) -> Seq<TocView>
    decreases blocks.len(),
{
    if blocks.len() == 0 {
        Seq::empty()
    } else {
        let rest = spec_collect_toc_entries(blocks.drop_last());
        match toc_entry_of(blocks.last()) {
            Some(e) => rest.push(e),
            None => rest,
        }
    }
}

/// The table-of-contents entries of a document: its headings of level 1
/// and 2, in order.
pub fn collect_toc_entries(blocks: &[Block]) -> (r: Vec<TocEntry>)
    ensures
        entries_view(r@) == spec_collect_toc_entries(blocks_view(blocks@)),
{
    let mut r: Vec<TocEntry> = Vec::new();
    let mut i: usize = 0;
    while i < blocks.len()
        invariant
            i <= blocks@.len(),
            entries_view(r@) == spec_collect_toc_entries(blocks_view(blocks@).take(i as int)),
        decreases blocks@.len() - i,
    {
        let ghost before = entries_view(r@);
        assert(blocks_view(blocks@).take(i + 1).drop_last() == blocks_view(blocks@).take(i as int));
        assert(blocks_view(blocks@).take(i + 1).last() == blocks@[i as int]@);
        match &blocks[i] {
            Block::Heading { level, text } => {
                if *level <= 2 {
                    let e = TocEntry { title: text.clone(), level: *level, page: 0 };
                    r.push(e);
                    assert(entries_view(r@) == before.push(e@));
                }
            },
            _ => {},
        }
        i = i + 1;
    }
    assert(blocks_view(blocks@).take(blocks@.len() as int) == blocks_view(blocks@));
    r
}

/// The entries with the pages their headings landed on: entry `i` takes
/// `heading_pages[i]`; titles and levels are kept.
pub fn resolve_toc_pages(entries: &[TocEntry], heading_pages: &[usize]) -> (r: Vec<TocEntry>)
    requires
        entries@.len() <= heading_pages@.len(),
    ensures
        r@.len() == entries@.len(),
        forall|i: int|
            0 <= i < entries@.len() ==> (#[trigger] r@[i]@) == (TocView {
                title: entries@[i]@.title,
                level: entries@[i]@.level,
                page: heading_pages@[i],
            }),
{
    let mut r: Vec<TocEntry> = Vec::new();
    let mut i: usize = 0;
    while i < entries.len()
        invariant
            i <= entries@.len(),
            entries@.len() <= heading_pages@.len(),
            r@.len() == i,
            forall|k: int|
                0 <= k < i ==> (#[trigger] r@[k]@) == (TocView {
                    title: entries@[k]@.title,
                    level: entries@[k]@.level,
                    page: heading_pages@[k],
                }),
        decreases entries@.len() - i,
    {
        let mut e = entries[i].duplicate();
        e.page = heading_pages[i];
        r.push(e);
        i = i + 1;
    }
    r
}

/// Lines on the first contents page (the first three hold its heading).
pub const FIRST_TOC_PAGE_LINES: usize = 28;

/// Lines on each further contents page.
pub const LATER_TOC_PAGE_LINES: usize = 38;

/// Number of contents pages for `n` entries: one page while the entries and
/// the three heading lines fit in 28 lines, and one more page for every 38
/// further lines, rounded up.
pub open spec fn spec_toc_page_count(n: nat) -> nat {
    let first = FIRST_TOC_PAGE_LINES as int;
    let later = LATER_TOC_PAGE_LINES as int;
    if n + 3 <= first {
        1
    } else {
        (1 + (n + 3 - first + later - 1) / later) as nat
    }
}

/// How many pages the table of contents takes.
pub fn toc_page_count(entries: &[TocEntry]) -> (r: usize)
    requires
        entries@.len() + 3 <= usize::MAX,
    ensures
        r == spec_toc_page_count(entries@.len()),
{
    let n = entries.len();
    if n + 3 <= FIRST_TOC_PAGE_LINES {
        1
    } else {
        let extra = n + 3 - FIRST_TOC_PAGE_LINES;
        let pages = extra / LATER_TOC_PAGE_LINES + if extra % LATER_TOC_PAGE_LINES == 0 {
            0
        } else {
            1
        };
        assert(pages == (extra + 38 - 1) / 38)
            by (nonlinear_arith)
            requires
                extra >= 1,
                pages == extra / 38 + if extra % 38 == 0 { 0int } else { 1int },
        ;
        1 + pages
    }
}

/// Entries on the first contents page.
pub const FIRST_TOC_PAGE_ENTRIES: usize = 25;

/// Entries on each further contents page.
pub const LATER_TOC_PAGE_ENTRIES: usize = 36;

/// How many entries the first `k` contents pages hold.
pub open spec fn toc_capacity(k: nat) -> nat {
    if k == 0 {
        0
    } else {
        (FIRST_TOC_PAGE_ENTRIES + LATER_TOC_PAGE_ENTRIES * (k - 1)) as nat
    }
}

pub open spec fn min_nat(a: nat, b: nat) -> nat {
    if a <= b {
        a
    } else {
        b
    }
}

/// The entries on contents page `k`: those from position
/// `toc_capacity(k)` up to `toc_capacity(k + 1)`, as far as there are any.
pub open spec fn toc_chunk(entries: Seq<TocView>, k: nat) -> Seq<TocView> {
    entries.subrange(
        min_nat(entries.len(), toc_capacity(k)) as int,
        min_nat(entries.len(), toc_capacity(k + 1)) as int,
    )
}

/// Splits the entries over `page_count` contents pages: 25 on the first,
/// 36 on each further one; pages past the last entry are empty.
pub fn chunk_toc_entries(entries: &[TocEntry], page_count: usize) -> (r: Vec<Vec<TocEntry>>)
    ensures
        r@.len() == page_count,
        forall|k: int|
            0 <= k < page_count ==> entries_view(#[trigger] r@[k]@) == toc_chunk(
                entries_view(entries@),
                k as nat,
            ),
{
    let ghost ev = entries_view(entries@);
    let mut chunks: Vec<Vec<TocEntry>> = Vec::new();
    let mut start: usize = 0;
    let mut index: usize = 0;
    while index < page_count
        invariant
            index <= page_count,
            chunks@.len() == index,
            ev == entries_view(entries@),
            start == min_nat(entries@.len(), toc_capacity(index as nat)),
            forall|k: int|
                0 <= k < index ==> entries_view(#[trigger] chunks@[k]@) == toc_chunk(ev, k as nat),
        decreases page_count - index,
    {
        let cap = if index == 0 {
            FIRST_TOC_PAGE_ENTRIES
        } else {
            LATER_TOC_PAGE_ENTRIES
        };
        let remaining = entries.len() - start;
        let take = if remaining < cap {
            remaining
        } else {
            cap
        };
        let mut chunk: Vec<TocEntry> = Vec::new();
        let end = start + take;
        let mut j: usize = start;
        while j < end
            invariant
                end == start + take,
                end <= entries@.len(),
                start <= j <= end,
                entries_view(chunk@) == entries_view(entries@).subrange(start as int, j as int),
            decreases end - j,
        {
            let e = entries[j].duplicate();
            let ghost before = entries_view(chunk@);
            chunk.push(e);
            assert(entries_view(chunk@) == before.push(e@));
            j = j + 1;
            assert(entries_view(entries@).subrange(start as int, j as int) == entries_view(
                entries@,
            ).subrange(start as int, j - 1).push(entries@[j - 1]@));
        }
        assert(start + take == min_nat(entries@.len(), toc_capacity((index + 1) as nat)));
        chunks.push(chunk);
        start = start + take;
        index = index + 1;
    }
    chunks
}

/// Laid end to end, the contents pages hold the entries in order, up to as
/// many as the pages can take.
pub proof fn lemma_toc_chunks_in_order(entries: Seq<TocView>, page_count: nat)
    ensures
        toc_chunks_joined(entries, page_count) == entries.take(
            min_nat(entries.len(), toc_capacity(page_count)) as int,
        ),
    decreases page_count,
{
    if page_count > 0 {
        lemma_toc_chunks_in_order(entries, (page_count - 1) as nat);
        let a = min_nat(entries.len(), toc_capacity((page_count - 1) as nat));
        let b = min_nat(entries.len(), toc_capacity(page_count));
        assert(entries.take(a as int) + entries.subrange(a as int, b as int) == entries.take(
            b as int,
        ));
    } else {
        assert(entries.take(0) == Seq::<TocView>::empty());
    }
}

/// The first `page_count` contents pages laid end to end.
pub open spec fn toc_chunks_joined(entries: Seq<TocView>, page_count: nat) -> Seq<TocView>
    decreases page_count,
{
    if page_count == 0 {
        Seq::empty()
    } else {
        toc_chunks_joined(entries, (page_count - 1) as nat) + toc_chunk(
            entries,
            (page_count - 1) as nat,
        )
    }
}

/// Where the page count is the one `toc_page_count` gives and the entries
/// fit on that many pages, every entry is on a contents page.
pub proof fn lemma_toc_covers_entries(entries: Seq<TocView>)
    requires
        entries.len() <= toc_capacity(spec_toc_page_count(entries.len())),
    ensures
        toc_chunks_joined(entries, spec_toc_page_count(entries.len())) == entries,
{
    lemma_toc_chunks_in_order(entries, spec_toc_page_count(entries.len()));
    assert(entries.take(entries.len() as int) == entries);
}

} // verus!

verus! {

/// A block that the table of contents lists: a heading of level 1 or 2.
pub open spec fn is_contents_heading(b: SpecBlock) -> bool {
    b matches SpecBlock::Heading { level, .. } && level <= 2
}

/// The contents line of a heading block: its text and level, no page yet.
pub open spec fn heading_line(b: SpecBlock) -> TocView {
    match b {
        SpecBlock::Heading { level, text } => TocView { title: text, level, page: 0 },
        _ => TocView { title: Seq::empty(), level: 0, page: 0 },
    }
}

/// The table of contents lists exactly the headings of level 1 and 2, in
/// the order of the document, each with its own text and level and page 0:
/// no entry has a level above 2, and no such heading is left out.
pub proof fn lemma_toc_lists_top_headings(blocks: Seq<SpecBlock>)
    ensures
        spec_collect_toc_entries(blocks) == blocks.filter(|b: SpecBlock| is_contents_heading(b)).map_values(
            |b: SpecBlock| heading_line(b),
        ),
        forall|i: int|
            0 <= i < spec_collect_toc_entries(blocks).len() ==> {
                let e = #[trigger] spec_collect_toc_entries(blocks)[i];
                &&& e.level <= 2
                &&& e.page == 0
            },
    decreases blocks.len(),
{
    reveal(Seq::filter);
    let p = |b: SpecBlock| is_contents_heading(b);
    let f = |b: SpecBlock| heading_line(b);
    if blocks.len() > 0 {
        lemma_toc_lists_top_headings(blocks.drop_last());
        let rest = blocks.drop_last().filter(p);
        if p(blocks.last()) {
            assert(blocks.filter(p) == rest.push(blocks.last()));
            assert(rest.push(blocks.last()).map_values(f) == rest.map_values(f).push(f(blocks.last())));
        } else {
            assert(blocks.filter(p) == rest);
        }
    } else {
        assert(blocks.filter(p) == blocks);
        assert(blocks.filter(p).map_values(f) == Seq::<TocView>::empty());
    }
    let es = spec_collect_toc_entries(blocks);
    let hs = blocks.filter(p);
    assert forall|i: int| 0 <= i < es.len() implies {
        let e = #[trigger] es[i];
        &&& e.level <= 2
        &&& e.page == 0
    } by {
        blocks.lemma_filter_pred(p, i);
        assert(es[i] == f(hs[i]));
    }
}

} // verus!

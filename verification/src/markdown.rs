//! Classification and normalisation of the lines of the print-ready book
//! sources.
use vstd::prelude::*;

use crate::text::{
    append_all, chars_of, contains_char, copy_range, count_char, count_char_exec, deep_chars,
    deep_strings, find, find_exec, has_prefix, join, join_exec, lemma_find_contains,
    lemma_first_match_unique, lemma_no_match, matches_at, replace_all, replace_all_exec,
    starts_with, string_of, trim, trim_chars, trim_start, trim_start_chars,
};

verus! {

broadcast use vstd::string::group_string_axioms;

// ---------------------------------------------------------------------------
// UTF-8 byte offsets
// ---------------------------------------------------------------------------

/// Number of bytes that `c` takes in UTF-8.
pub open spec fn utf8_width(c: char) -> nat {
    let u = c as u32;
    if u < 0x80 {
        1
    } else if u < 0x800 {
        2
    } else if u < 0x10000 {
        3
    } else {
        4
    }
}

/// Number of bytes that `s` takes in UTF-8.
pub open spec fn utf8_len(s: Seq<char>) -> nat
    decreases s.len(),
{
    if s.len() == 0 {
        0
    } else {
        utf8_width(s[0]) + utf8_len(s.drop_first())
    }
}

/// What `&s[b..]` is for a byte offset `b` into the UTF-8 encoding of `s`:
/// `None` where `b` is past the end or inside a character (where slicing
/// panics).
pub open spec fn byte_cut(s: Seq<char>, b: nat) -> Option<Seq<char>>
    decreases s.len(),
{
    if b == 0 {
        Some(s)
    } else if s.len() == 0 {
        None
    } else if utf8_width(s[0]) <= b {
        byte_cut(s.drop_first(), (b - utf8_width(s[0])) as nat)
    } else {
        None
    }
}

pub proof fn lemma_byte_cut_skip(s: Seq<char>, k: int, m: nat)
    requires
        0 <= k <= s.len(),
    ensures
        byte_cut(s, utf8_len(s.take(k)) + m) == byte_cut(s.skip(k), m),
    decreases k,
{
    if k == 0 {
        assert(s.take(0).len() == 0);
        assert(s.skip(0) == s);
        if m > 0 && s.len() > 0 {
        }
    } else {
        let t = s.take(k);
        assert(t.drop_first() == s.drop_first().take(k - 1));
        assert(t[0] == s[0]);
        lemma_byte_cut_skip(s.drop_first(), k - 1, m);
        assert(s.drop_first().skip(k - 1) == s.skip(k));
    }
}

pub fn utf8_width_exec(c: char) -> (n: usize)
    ensures
        n == utf8_width(c),
{
    let u = c as u32;
    if u < 0x80 {
        1
    } else if u < 0x800 {
        2
    } else if u < 0x10000 {
        3
    } else {
        4
    }
}

/// Starting at character index `start`, moves `b` bytes forward; returns
/// the character index reached, or `None` where that lands past the end or
/// inside a character.
pub fn byte_cut_exec(s: &[char], start: usize, b: usize) -> (r: Option<usize>)
    requires
        start <= s@.len(),
    ensures
        match r {
            Some(j) => start <= j <= s@.len() && byte_cut(s@.skip(start as int), b as nat) == Some(
                s@.skip(j as int),
            ),
            None => byte_cut(s@.skip(start as int), b as nat) is None,
        },
{
    let mut j = start;
    let mut left = b;
    while left > 0
        invariant
            start <= j <= s@.len(),
            byte_cut(s@.skip(start as int), b as nat) == byte_cut(s@.skip(j as int), left as nat),
        decreases left,
    {
        let ghost rest = s@.skip(j as int);
        if j == s.len() {
            return None;
        }
        let w = utf8_width_exec(s[j]);
        assert(rest[0] == s@[j as int]);
        if w > left {
            return None;
        }
        assert(rest.drop_first() == s@.skip(j + 1));
        j = j + 1;
        left = left - w;
    }
    Some(j)
}

// ---------------------------------------------------------------------------
// List items
// ---------------------------------------------------------------------------

pub open spec fn is_ascii_digit(c: char) -> bool {
    '0' <= c <= '9'
}

/// `s` begins with `d` ASCII digits (at least one), then `". "`.
pub open spec fn ordered_marker_at(s: Seq<char>, d: int) -> bool {
    1 <= d && d + 1 < s.len() && (forall|i: int| 0 <= i < d ==> is_ascii_digit(#[trigger] s[i]))
        && s[d] == '.' && s[d + 1] == ' '
}

/// `s` begins with one or more ASCII digits, then `". "`.
pub open spec fn spec_is_ordered_item(s: Seq<char>) -> bool {
    exists|d: int| #[trigger] ordered_marker_at(s, d)
}

/// `s` is a bullet item (`"- "` or `"* "`) or a numbered item.
pub open spec fn spec_is_list_item(s: Seq<char>) -> bool {
    has_prefix(s, "- "@) || has_prefix(s, "* "@) || spec_is_ordered_item(s)
}

/// Whether the line is a numbered list item such as `"12. text"`.
pub fn is_ordered_item(line: &str) -> (b: bool)
    ensures
        b == spec_is_ordered_item(line@),
{
    let s = chars_of(line);
    is_ordered_item_chars(s.as_slice())
}

pub fn is_ordered_item_chars(s: &[char]) -> (b: bool)
    ensures
        b == spec_is_ordered_item(s@),
{
    let mut d: usize = 0;
    while d < s.len() && '0' <= s[d] && s[d] <= '9'
        invariant
            d <= s@.len(),
            forall|i: int| 0 <= i < d ==> is_ascii_digit(#[trigger] s@[i]),
        decreases s@.len() - d,
    {
        d = d + 1;
    }
    let b = d >= 1 && d < s.len() && s[d] == '.' && d + 1 < s.len() && s[d + 1] == ' ';
    proof {
        if b {
            assert(ordered_marker_at(s@, d as int));
        } else {
            if spec_is_ordered_item(s@) {
                let e = choose|e: int| ordered_marker_at(s@, e);
                if e < d {
                    assert(is_ascii_digit(s@[e]));
                } else if e > d {
                    assert(is_ascii_digit(s@[d as int]));
                }
            }
        }
    }
    b
}

/// Whether the line is a bullet or numbered list item.
pub fn is_list_item(line: &str) -> (b: bool)
    ensures
        b == spec_is_list_item(line@),
{
    let s = chars_of(line);
    is_list_item_chars(s.as_slice())
}

pub fn is_list_item_chars(s: &[char]) -> (b: bool)
    ensures
        b == spec_is_list_item(s@),
{
    let dash = chars_of("- ");
    let star = chars_of("* ");
    starts_with(s, dash.as_slice()) || starts_with(s, star.as_slice()) || is_ordered_item_chars(s)
}

/// Index of the first occurrence of `c` in `s`.
pub open spec fn first_index_of(s: Seq<char>, c: char) -> Option<int> {
    find(s, seq![c])
}

/// What removing the list marker from `s` gives: the text after `"- "` or
/// `"* "`, or else the text from two bytes after the first `'.'` (from byte
/// two where there is no `'.'`); `None` where that byte offset is past the
/// end or inside a character.
pub open spec fn spec_strip_list_marker(s: Seq<char>) -> Option<Seq<char>> {
    if has_prefix(s, "- "@) {
        Some(s.skip("- "@.len() as int))
    } else if has_prefix(s, "* "@) {
        Some(s.skip("* "@.len() as int))
    } else {
        match first_index_of(s, '.') {
            Some(k) => byte_cut(s, utf8_len(s.take(k)) + 2),
            None => byte_cut(s, 2),
        }
    }
}

proof fn lemma_match_single(s: Seq<char>, c: char, i: int)
    ensures
        matches_at(s, seq![c], i) == (0 <= i < s.len() && s[i] == c),
{
    if 0 <= i < s.len() && s[i] == c {
        assert(s.subrange(i, i + 1) == seq![c]);
    }
    if matches_at(s, seq![c], i) {
        assert(s.subrange(i, i + 1)[0] == s[i]);
    }
}

/// Position of the first occurrence of `c` in `s`.
pub fn first_index_of_exec(s: &[char], c: char) -> (r: Option<usize>)
    ensures
        r matches Some(i) ==> first_index_of(s@, c) == Some(i as int) && i < s@.len() && s@[i as int]
            == c,
        r is None ==> first_index_of(s@, c) is None,
{
    let mut i: usize = 0;
    while i < s.len()
        invariant
            i <= s@.len(),
            forall|j: int| 0 <= j < i ==> s@[j] != c,
        decreases s@.len() - i,
    {
        if s[i] == c {
            proof {
                lemma_match_single(s@, c, i as int);
                assert forall|j: int| 0 <= j < i implies !matches_at(s@, seq![c], j) by {
                    lemma_match_single(s@, c, j);
                }
                lemma_first_match_unique(s@, seq![c], i as int);
            }
            return Some(i);
        }
        i = i + 1;
    }
    proof {
        assert forall|j: int| 0 <= j implies !matches_at(s@, seq![c], j) by {
            lemma_match_single(s@, c, j);
        }
        lemma_no_match(s@, seq![c]);
    }
    None
}

/// Removes the list marker from a list item: `"- hello"`, `"* hello"` and
/// `"12. hello"` all give `"hello"`.
pub fn strip_list_marker(line: &str) -> (r: String)
    requires
        spec_strip_list_marker(line@) is Some,
    ensures
        spec_strip_list_marker(line@) == Some(r@),
{
    let s = chars_of(line);
    let v = strip_list_marker_chars(s.as_slice());
    string_of(v.as_slice())
}

pub fn strip_list_marker_chars(s: &[char]) -> (v: Vec<char>)
    requires
        spec_strip_list_marker(s@) is Some,
    ensures
        spec_strip_list_marker(s@) == Some(v@),
{
    let dash = chars_of("- ");
    let star = chars_of("* ");
    if starts_with(s, dash.as_slice()) {
        return copy_range(s, dash.len(), s.len());
    }
    if starts_with(s, star.as_slice()) {
        return copy_range(s, star.len(), s.len());
    }
    let start = match first_index_of_exec(s, '.') {
        Some(k) => {
            proof {
                lemma_byte_cut_skip(s@, k as int, 2);
            }
            k
        },
        None => {
            assert(s@.skip(0) == s@);
            0
        },
    };
    match byte_cut_exec(s, start, 2) {
        Some(j) => copy_range(s, j, s.len()),
        None => {
            assert(false);
            Vec::new()
        },
    }
}

/// A numbered or bullet item always has a marker that can be removed.
pub proof fn lemma_list_item_strippable(s: Seq<char>)
    requires
        spec_is_list_item(s),
    ensures
        spec_strip_list_marker(s) is Some,
{
    if !has_prefix(s, "- "@) && !has_prefix(s, "* "@) {
        let d = choose|d: int| ordered_marker_at(s, d);
        lemma_match_single(s, '.', d);
        assert forall|j: int| 0 <= j < d implies !matches_at(s, seq!['.'], j) by {
            lemma_match_single(s, '.', j);
            assert(is_ascii_digit(s[j]));
        }
        lemma_first_match_unique(s, seq!['.'], d);
        lemma_byte_cut_skip(s, d, 2);
        let t = s.skip(d);
        assert(t[0] == '.');
        assert(t.drop_first()[0] == ' ');
        assert(t.drop_first().drop_first() == s.skip(d + 2));
        assert(utf8_width('.') == 1);
        assert(utf8_width(' ') == 1);
        assert(byte_cut(t.drop_first(), 1) == byte_cut(t.drop_first().drop_first(), 0));
        assert(byte_cut(t, 2) == byte_cut(t.drop_first(), 1));
    }
}

// ---------------------------------------------------------------------------
// Other line shapes
// ---------------------------------------------------------------------------

/// `s` has at least two `'|'` and does not begin with `'['`.
pub open spec fn spec_looks_like_table_row(s: Seq<char>) -> bool {
    count_char(s, '|') >= 2 && !has_prefix(s, "["@)
}

/// Whether the line looks like a row of a Markdown table.
pub fn looks_like_table_row(line: &str) -> (b: bool)
    ensures
        b == spec_looks_like_table_row(line@),
{
    let s = chars_of(line);
    looks_like_table_row_chars(s.as_slice())
}

pub fn looks_like_table_row_chars(s: &[char]) -> (b: bool)
    ensures
        b == spec_looks_like_table_row(s@),
{
    let bracket = chars_of("[");
    count_char_exec(s, '|') >= 2 && !starts_with(s, bracket.as_slice())
}

/// `s` is a file name that labels the code block on the next line: the next
/// line begins (after leading whitespace) with a code fence, and `s` holds no
/// space and at least one of `'/'`, `'.'`, `'-'`.
pub open spec fn spec_is_standalone_code_title(s: Seq<char>, next: Option<Seq<char>>) -> bool {
    &&& next matches Some(n) && has_prefix(trim_start(n), "```"@)
    &&& !s.contains(' ')
    &&& (s.contains('/') || s.contains('.') || s.contains('-'))
}

/// Whether `line` names the file of the code block that follows it.
pub fn is_standalone_code_title(line: &str, next: Option<&str>) -> (b: bool)
    ensures
        b == spec_is_standalone_code_title(line@, match next {
            Some(n) => Some(n@),
            None => None,
        }),
{
    let s = chars_of(line);
    let n = match next {
        Some(n) => Some(chars_of(n)),
        None => None,
    };
    is_standalone_code_title_chars(s.as_slice(), &n)
}

pub fn is_standalone_code_title_chars(s: &[char], next: &Option<Vec<char>>) -> (b: bool)
    ensures
        b == spec_is_standalone_code_title(s@, match next {
            Some(n) => Some(n@),
            None => None,
        }),
{
    let fence = chars_of("```");
    let next_is_fence = match next {
        Some(n) => {
            let t = trim_start_chars(n.as_slice());
            starts_with(t.as_slice(), fence.as_slice())
        },
        None => false,
    };
    next_is_fence && !contains_char(s, ' ') && (contains_char(s, '/') || contains_char(s, '.')
        || contains_char(s, '-'))
}

// ---------------------------------------------------------------------------
// Inline normalisation
// ---------------------------------------------------------------------------

/// `s` with the HTML line breaks `<br>`, `<br />` and `<br/>` replaced by a
/// space, in that order.
pub open spec fn spec_sanitize_inline_html(s: Seq<char>) -> Seq<char> {
    replace_all(replace_all(replace_all(s, "<br>"@, " "@), "<br />"@, " "@), "<br/>"@, " "@)
}

/// Replaces HTML line breaks by spaces.
pub fn sanitize_inline_html(input: &str) -> (r: String)
    ensures
        r@ == spec_sanitize_inline_html(input@),
{
    let s = chars_of(input);
    let v = sanitize_inline_html_chars(s.as_slice());
    string_of(v.as_slice())
}

pub fn sanitize_inline_html_chars(s: &[char]) -> (v: Vec<char>)
    ensures
        v@ == spec_sanitize_inline_html(s@),
{
    let br1 = chars_of("<br>");
    let br2 = chars_of("<br />");
    let br3 = chars_of("<br/>");
    let space = chars_of(" ");
    proof {
        reveal_strlit("<br>");
        reveal_strlit("<br />");
        reveal_strlit("<br/>");
    }
    let a = replace_all_exec(s, br1.as_slice(), space.as_slice());
    let b = replace_all_exec(a.as_slice(), br2.as_slice(), space.as_slice());
    replace_all_exec(b.as_slice(), br3.as_slice(), space.as_slice())
}

/// The trimmed lines that are not blank, in order.
pub open spec fn trimmed_nonblank(lines: Seq<Seq<char>>) -> Seq<Seq<char>>
    decreases lines.len(),
{
    if lines.len() == 0 {
        Seq::empty()
    } else {
        let rest = trimmed_nonblank(lines.drop_last());
        if trim(lines.last()).len() > 0 {
            rest.push(trim(lines.last()))
        } else {
            rest
        }
    }
}

/// The lines, trimmed, blank ones left out, joined by single spaces.
pub open spec fn spec_join_wrapped_lines(lines: Seq<Seq<char>>) -> Seq<char> {
    join(trimmed_nonblank(lines), " "@)
}

/// Joins wrapped source lines into one line of text.
pub fn join_wrapped_lines(lines: &[String]) -> (r: String)
    ensures
        r@ == spec_join_wrapped_lines(deep_strings(lines@)),
{
    let mut v: Vec<Vec<char>> = Vec::new();
    let mut i: usize = 0;
    while i < lines.len()
        invariant
            i <= lines@.len(),
            deep_chars(v@) == deep_strings(lines@).take(i as int),
        decreases lines@.len() - i,
    {
        let c = chars_of(lines[i].as_str());
        let ghost before = deep_chars(v@);
        v.push(c);
        assert(deep_chars(v@) == before.push(c@));
        i = i + 1;
        assert(deep_strings(lines@).take(i as int) == deep_strings(lines@).take(i - 1).push(
            lines@[i - 1]@,
        ));
    }
    assert(deep_strings(lines@).take(lines@.len() as int) == deep_strings(lines@));
    let j = join_wrapped_chars(&v);
    string_of(j.as_slice())
}

pub fn join_wrapped_chars(lines: &Vec<Vec<char>>) -> (r: Vec<char>)
    ensures
        r@ == spec_join_wrapped_lines(deep_chars(lines@)),
{
    let mut kept: Vec<Vec<char>> = Vec::new();
    let mut i: usize = 0;
    while i < lines.len()
        invariant
            i <= lines@.len(),
            deep_chars(kept@) == trimmed_nonblank(deep_chars(lines@).take(i as int)),
        decreases lines@.len() - i,
    {
        let t = trim_chars(lines[i].as_slice());
        let ghost before = deep_chars(kept@);
        assert(deep_chars(lines@).take(i + 1).drop_last() == deep_chars(lines@).take(i as int));
        if t.len() > 0 {
            kept.push(t);
            assert(deep_chars(kept@) == before.push(t@));
        }
        i = i + 1;
    }
    assert(deep_chars(lines@).take(lines@.len() as int) == deep_chars(lines@));
    let space = chars_of(" ");
    join_exec(&kept, space.as_slice())
}

// ---------------------------------------------------------------------------
// Figures
// ---------------------------------------------------------------------------

/// The caption of the first `<img ...>` tag of the line: the text between
/// the quote character that follows its first `alt=` and the next occurrence
/// of that character, after `"Figure: "`.
pub open spec fn spec_extract_img_alt(s: Seq<char>) -> Option<Seq<char>> {
    match find(s, "<img "@) {
        None => None,
        Some(i) => match find(s.skip(i), "alt="@) {
            None => None,
            Some(j) => {
                let a = i + j + "alt="@.len();
                if a >= s.len() {
                    None
                } else {
                    let rest = s.skip(a + 1);
                    match first_index_of(rest, s[a]) {
                        None => None,
                        Some(e) => Some("Figure: "@ + rest.take(e)),
                    }
                }
            },
        },
    }
}

/// The alternative text of an `<img>` tag, as a figure caption.
pub fn extract_img_alt(line: &str) -> (r: Option<String>)
    ensures
        match r {
            Some(x) => spec_extract_img_alt(line@) == Some(x@),
            None => spec_extract_img_alt(line@) is None,
        },
{
    let s = chars_of(line);
    match extract_img_alt_chars(s.as_slice()) {
        Some(v) => Some(string_of(v.as_slice())),
        None => None,
    }
}

pub fn extract_img_alt_chars(s: &[char]) -> (r: Option<Vec<char>>)
    ensures
        match r {
            Some(x) => spec_extract_img_alt(s@) == Some(x@),
            None => spec_extract_img_alt(s@) is None,
        },
{
    let img = chars_of("<img ");
    let alt = chars_of("alt=");
    let i = match find_exec(s, img.as_slice()) {
        Some(i) => i,
        None => return None,
    };
    proof {
        lemma_find_contains(s@, img@);
    }
    let tail = copy_range(s, i, s.len());
    let j = match find_exec(tail.as_slice(), alt.as_slice()) {
        Some(j) => j,
        None => return None,
    };
    proof {
        lemma_find_contains(tail@, alt@);
    }
    let a = i + j + alt.len();
    if a >= s.len() {
        return None;
    }
    let q = s[a];
    let rest = copy_range(s, a + 1, s.len());
    match first_index_of_exec(rest.as_slice(), q) {
        None => None,
        Some(e) => {
            let mut out = chars_of("Figure: ");
            let caption = copy_range(rest.as_slice(), 0, e);
            append_all(&mut out, caption.as_slice());
            assert(caption@ == rest@.take(e as int));
            Some(out)
        },
    }
}

} // verus!

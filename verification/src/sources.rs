//! Which source files make up the book, in which order, and where the PDF
//! goes.
use vstd::prelude::*;

use crate::markdown::is_ascii_digit;
use crate::parse::strings_view;
use crate::paths::{file_name, file_name_exec};
use crate::text::{
    chars_of, ends_with, has_prefix, has_suffix, is_blank, starts_with, string_of, trim,
};

verus! {

broadcast use vstd::string::group_string_axioms;

// ---------------------------------------------------------------------------
// File numbers
// ---------------------------------------------------------------------------

/// The stem of a file name (`Path::file_stem`): the name before its last
/// `'.'`, or the whole name where it has no `'.'` other than a first one,
/// or is `".."`.
pub open spec fn file_stem(name: Seq<char>) -> Seq<char> {
    if name == seq!['.', '.'] {
        name
    } else {
        match last_dot(name) {
            Some(k) => if k == 0 {
                name
            } else {
                name.take(k)
            },
            None => name,
        }
    }
}

/// Index of the last `'.'` in `s`.
pub open spec fn last_dot(s: Seq<char>) -> Option<int>
    decreases s.len(),
{
    if s.len() == 0 {
        None
    } else if s.last() == '.' {
        Some(s.len() - 1)
    } else {
        last_dot(s.drop_last())
    }
}

/// The ASCII digits of `s`, in order.
pub open spec fn digits_of(s: Seq<char>) -> Seq<char>
    decreases s.len(),
{
    if s.len() == 0 {
        Seq::empty()
    } else if is_ascii_digit(s.last()) {
        digits_of(s.drop_last()).push(s.last())
    } else {
        digits_of(s.drop_last())
    }
}

/// The number that a string of decimal digits denotes.
pub open spec fn decimal_value(ds: Seq<char>) -> nat
    decreases ds.len(),
{
    if ds.len() == 0 {
        0
    } else {
        decimal_value(ds.drop_last()) * 10 + ((ds.last() as u32) - ('0' as u32)) as nat
    }
}

/// The number in a file name: the digits of its stem read as a `u32`, or
/// `u32::MAX` where there are none or they denote more than `u32::MAX`.
pub open spec fn stem_number(file: Seq<char>) -> u32 {
    let ds = digits_of(file_stem(file));
    if ds.len() == 0 || decimal_value(ds) > u32::MAX {
        u32::MAX
    } else {
        decimal_value(ds) as u32
    }
}

/// The number of a source file: that of its file name (the last component
/// of the path, directories left out), or `u32::MAX` where the path has no
/// file name.
pub open spec fn spec_filename_number(path: Seq<char>) -> u32 {
    match file_name(path) {
        Some(f) => stem_number(f),
        None => u32::MAX,
    }
}

/// Index of the last `'.'` in `s`.
pub fn last_dot_exec(s: &[char]) -> (r: Option<usize>)
    ensures
        match r {
            Some(k) => last_dot(s@) == Some(k as int) && k < s@.len(),
            None => last_dot(s@) is None,
        },
{
    let mut k: usize = s.len();
    assert(s@.take(s@.len() as int) == s@);
    while k > 0
        invariant
            k <= s@.len(),
            last_dot(s@) == last_dot(s@.take(k as int)),
        decreases k,
    {
        assert(s@.take(k as int).drop_last() == s@.take(k - 1));
        assert(s@.take(k as int).last() == s@[k - 1]);
        if s[k - 1] == '.' {
            return Some(k - 1);
        }
        k = k - 1;
    }
    assert(s@.take(s@.len() as int) == s@);
    None
}

/// The number a source file is ordered by: the digits in its file name
/// (before the extension), or `u32::MAX` where there are none or too many,
/// or the path has no file name.
pub fn filename_number(path: &str) -> (n: u32)
    ensures
        n == spec_filename_number(path@),
{
    let s = chars_of(path);
    filename_number_chars(s.as_slice())
}

fn filename_number_chars(s: &[char]) -> (n: u32)
    ensures
        n == spec_filename_number(s@),
{
    match file_name_exec(s) {
        Some(f) => stem_number_chars(f.as_slice()),
        None => u32::MAX,
    }
}

fn stem_number_chars(s: &[char]) -> (n: u32)
    ensures
        n == stem_number(s@),
{
    let dotdot: Vec<char> = vec!['.', '.'];
    let stem_end = if s.len() == 2 && s[0] == '.' && s[1] == '.' {
        assert(s@ == dotdot@);
        s.len()
    } else {
        proof {
            if s@ == dotdot@ {
                assert(s@[0] == '.' && s@[1] == '.');
            }
        }
        match last_dot_exec(s) {
            Some(k) => if k == 0 {
                s.len()
            } else {
                k
            },
            None => s.len(),
        }
    };
    assert(file_stem(s@) == s@.take(stem_end as int));
    let mut value: u64 = 0;
    let mut any_digit = false;
    let mut too_big = false;
    let mut i: usize = 0;
    while i < stem_end
        invariant
            stem_end <= s@.len(),
            i <= stem_end,
            any_digit == (digits_of(s@.take(i as int)).len() > 0),
            too_big ==> decimal_value(digits_of(s@.take(i as int))) > u32::MAX,
            !too_big ==> value == decimal_value(digits_of(s@.take(i as int))) && value <= u32::MAX,
        decreases stem_end - i,
    {
        let c = s[i];
        assert(s@.take(i + 1).drop_last() == s@.take(i as int));
        assert(s@.take(i + 1).last() == c);
        if '0' <= c && c <= '9' {
            any_digit = true;
            let ghost prev = digits_of(s@.take(i as int));
            assert(digits_of(s@.take(i + 1)).drop_last() == prev);
            if !too_big {
                value = value * 10 + ((c as u32) - ('0' as u32)) as u64;
                if value > 0xffff_ffff {
                    too_big = true;
                }
            }
        }
        i = i + 1;
    }
    if !any_digit || too_big {
        u32::MAX
    } else {
        value as u32
    }
}

// ---------------------------------------------------------------------------
// Source order
// ---------------------------------------------------------------------------

/// `a` comes before `b`, or equals it, in lexicographic order of characters
/// (the order of their UTF-8 bytes).
pub open spec fn lex_le(a: Seq<char>, b: Seq<char>) -> bool
    decreases a.len(),
{
    if a.len() == 0 {
        true
    } else if b.len() == 0 {
        false
    } else if a[0] != b[0] {
        (a[0] as u32) < (b[0] as u32)
    } else {
        lex_le(a.drop_first(), b.drop_first())
    }
}

pub proof fn lemma_lex_total(a: Seq<char>, b: Seq<char>)
    ensures
        lex_le(a, b) || lex_le(b, a),
    decreases a.len(),
{
    if a.len() > 0 && b.len() > 0 {
        if a[0] == b[0] {
            lemma_lex_total(a.drop_first(), b.drop_first());
        } else {
            vstd::utf8::char_u32_cast(a[0], a[0] as u32);
            vstd::utf8::char_u32_cast(b[0], b[0] as u32);
        }
    }
}

pub proof fn lemma_lex_antisymmetric(a: Seq<char>, b: Seq<char>)
    requires
        lex_le(a, b),
        lex_le(b, a),
    ensures
        a == b,
    decreases a.len(),
{
    if a.len() > 0 && b.len() > 0 {
        if a[0] == b[0] {
            lemma_lex_antisymmetric(a.drop_first(), b.drop_first());
            assert(a == seq![a[0]] + a.drop_first());
            assert(b == seq![b[0]] + b.drop_first());
        } else {
            assert((a[0] as u32) != (b[0] as u32));
        }
    } else if a.len() == 0 && b.len() == 0 {
        assert(a == b);
    }
}

pub proof fn lemma_lex_transitive(a: Seq<char>, b: Seq<char>, c: Seq<char>)
    requires
        lex_le(a, b),
        lex_le(b, c),
    ensures
        lex_le(a, c),
    decreases a.len(),
{
    if a.len() > 0 && b.len() > 0 && c.len() > 0 {
        if a[0] == b[0] && b[0] == c[0] {
            lemma_lex_transitive(a.drop_first(), b.drop_first(), c.drop_first());
        }
    }
}

/// The order of chapter files: by file number, then by name.
pub open spec fn source_le(a: Seq<char>, b: Seq<char>) -> bool {
    let na = spec_filename_number(a);
    let nb = spec_filename_number(b);
    na < nb || (na == nb && lex_le(a, b))
}

pub proof fn lemma_source_total(a: Seq<char>, b: Seq<char>)
    ensures
        source_le(a, b) || source_le(b, a),
{
    lemma_lex_total(a, b);
}

pub proof fn lemma_source_transitive(a: Seq<char>, b: Seq<char>, c: Seq<char>)
    requires
        source_le(a, b),
        source_le(b, c),
    ensures
        source_le(a, c),
{
    if spec_filename_number(a) == spec_filename_number(b) && spec_filename_number(b)
        == spec_filename_number(c) {
        lemma_lex_transitive(a, b, c);
    }
}

pub proof fn lemma_source_antisymmetric(a: Seq<char>, b: Seq<char>)
    requires
        source_le(a, b),
        source_le(b, a),
    ensures
        a == b,
{
    lemma_lex_antisymmetric(a, b);
}

/// Names in non-decreasing source order.
pub open spec fn in_source_order(s: Seq<Seq<char>>) -> bool {
    forall|i: int, j: int| 0 <= i < j < s.len() ==> source_le(#[trigger] s[i], #[trigger] s[j])
}

/// A chapter file: its name begins with `"chapter"` and ends with `".md"`.
pub open spec fn is_chapter_file(name: Seq<char>) -> bool {
    has_prefix(name, "chapter"@) && has_suffix(name, ".md"@)
}

/// The chapter files among the names, in the order given.
pub open spec fn chapter_files(names: Seq<Seq<char>>) -> Seq<Seq<char>>
    decreases names.len(),
{
    if names.len() == 0 {
        Seq::empty()
    } else if is_chapter_file(names.last()) {
        chapter_files(names.drop_last()).push(names.last())
    } else {
        chapter_files(names.drop_last())
    }
}

/// Whether `name` is a chapter file.
fn is_chapter_file_exec(name: &[char]) -> (b: bool)
    ensures
        b == is_chapter_file(name@),
{
    let prefix = chars_of("chapter");
    let suffix = chars_of(".md");
    starts_with(name, prefix.as_slice()) && ends_with(name, suffix.as_slice())
}

/// Whether `a` comes before `b`, or equals it, in source order.
fn source_le_exec(a: &[char], na: u32, b: &[char], nb: u32) -> (r: bool)
    requires
        na == spec_filename_number(a@),
        nb == spec_filename_number(b@),
    ensures
        r == source_le(a@, b@),
{
    if na != nb {
        return na < nb;
    }
    let mut i: usize = 0;
    assert(a@.skip(0) == a@);
    assert(b@.skip(0) == b@);
    while i < a.len() && i < b.len() && a[i] == b[i]
        invariant
            i <= a@.len(),
            i <= b@.len(),
            lex_le(a@, b@) == lex_le(a@.skip(i as int), b@.skip(i as int)),
        decreases a@.len() - i,
    {
        assert(a@.skip(i as int).drop_first() == a@.skip(i + 1));
        assert(b@.skip(i as int).drop_first() == b@.skip(i + 1));
        i = i + 1;
    }
    if i == a.len() {
        true
    } else if i == b.len() {
        false
    } else {
        assert(a@.skip(i as int)[0] == a@[i as int]);
        assert(b@.skip(i as int)[0] == b@[i as int]);
        (a[i] as u32) < (b[i] as u32)
    }
}

proof fn lemma_insert_multiset(s: Seq<Seq<char>>, p: int, x: Seq<char>)
    requires
        0 <= p <= s.len(),
    ensures
        s.insert(p, x).to_multiset() == s.to_multiset().insert(x),
{
    broadcast use vstd::seq_lib::group_to_multiset_ensures;

    let t = s.insert(p, x);
    assert(t.remove(p) == s);
    assert(t[p] == x);
    assert(t.to_multiset().count(x) > 0);
    assert(t.to_multiset() =~= t.to_multiset().remove(x).insert(x));
}

/// The source files of the book, by name, in reading order: the front
/// matter, the chapter files (names beginning with `"chapter"` and ending
/// with `".md"`) by file number and then by name, and the appendix.
pub fn ordered_source_names(names: &Vec<String>) -> (r: Vec<String>)
    ensures
        r@.len() == chapter_files(strings_view(names@)).len() + 2,
        r@[0]@ == "frontmatter.md"@,
        r@[r@.len() - 1]@ == "appendix.md"@,
        in_source_order(strings_view(r@).subrange(1, r@.len() - 1)),
        strings_view(r@).subrange(1, r@.len() - 1).to_multiset() == chapter_files(
            strings_view(names@),
        ).to_multiset(),
{
    broadcast use vstd::seq_lib::group_to_multiset_ensures;

    let ghost input = strings_view(names@);
    let mut sorted: Vec<Vec<char>> = Vec::new();
    let mut keys: Vec<u32> = Vec::new();
    let mut i: usize = 0;
    while i < names.len()
        invariant
            i <= names@.len(),
            input == strings_view(names@),
            keys@.len() == sorted@.len(),
            sorted@.len() <= i,
            forall|k: int|
                0 <= k < sorted@.len() ==> keys@[k] == spec_filename_number(#[trigger] sorted@[k]@),
            in_source_order(sorted@.map_values(|v: Vec<char>| v@)),
            sorted@.map_values(|v: Vec<char>| v@).to_multiset() == chapter_files(
                input.take(i as int),
            ).to_multiset(),
        decreases names@.len() - i,
    {
        let name = chars_of(names[i].as_str());
        assert(input.take(i + 1).drop_last() == input.take(i as int));
        assert(input.take(i + 1).last() == name@);
        let ghost prev_files = chapter_files(input.take(i as int));
        if is_chapter_file_exec(name.as_slice()) {
            assert(chapter_files(input.take(i + 1)) == prev_files.push(name@));
            proof {
                vstd::seq_lib::to_multiset_build(prev_files, name@);
            }
            let key = filename_number_chars(name.as_slice());
            let ghost sv = sorted@.map_values(|v: Vec<char>| v@);
            // the first position whose name comes strictly after `name`
            let mut p: usize = 0;
            while p < sorted.len() && source_le_exec(sorted[p].as_slice(), keys[p], name.as_slice(), key)
                invariant
                    p <= sorted@.len(),
                    keys@.len() == sorted@.len(),
                    sv == sorted@.map_values(|v: Vec<char>| v@),
                    key == spec_filename_number(name@),
                    forall|k: int|
                        0 <= k < sorted@.len() ==> keys@[k] == spec_filename_number(
                            #[trigger] sorted@[k]@,
                        ),
                    forall|k: int| 0 <= k < p ==> source_le(#[trigger] sv[k], name@),
                decreases sorted@.len() - p,
            {
                p = p + 1;
            }
            proof {
                if p < sorted@.len() {
                    assert(!source_le(sv[p as int], name@));
                    lemma_source_total(sv[p as int], name@);
                }
                assert forall|k: int| p <= k < sv.len() implies source_le(name@, #[trigger] sv[k]) by {
                    lemma_source_total(sv[p as int], name@);
                    if k > p {
                        lemma_source_transitive(name@, sv[p as int], sv[k]);
                    }
                }
                lemma_insert_multiset(sv, p as int, name@);
            }
            let ghost nv = name@;
            let ghost sorted_before = sorted@;
            let ghost keys_before = keys@;
            sorted.insert(p, name);
            keys.insert(p, key);
            proof {
                let t = sorted@.map_values(|v: Vec<char>| v@);
                assert(t == sv.insert(p as int, nv));
                assert forall|a: int, b: int| 0 <= a < b < t.len() implies source_le(
                    #[trigger] t[a],
                    #[trigger] t[b],
                ) by {
                    if b < p {
                        assert(t[a] == sv[a] && t[b] == sv[b]);
                    } else if b == p {
                        assert(t[a] == sv[a]);
                    } else if a < p {
                        assert(t[a] == sv[a] && t[b] == sv[b - 1]);
                        lemma_source_transitive(sv[a], nv, sv[b - 1]);
                    } else if a == p {
                        assert(t[b] == sv[b - 1]);
                    } else {
                        assert(t[a] == sv[a - 1] && t[b] == sv[b - 1]);
                    }
                }
                assert forall|k: int| 0 <= k < sorted@.len() implies keys@[k]
                    == spec_filename_number(#[trigger] sorted@[k]@) by {
                    if k < p {
                        assert(sorted@[k] == sorted_before[k] && keys@[k] == keys_before[k]);
                    } else if k == p {
                    } else {
                        assert(sorted@[k] == sorted_before[k - 1] && keys@[k] == keys_before[k - 1]);
                    }
                }
            }
        } else {
            assert(chapter_files(input.take(i + 1)) == prev_files);
        }
        i = i + 1;
    }
    assert(input.take(names@.len() as int) == input);
    let mut out: Vec<String> = Vec::new();
    out.push(string_of(chars_of("frontmatter.md").as_slice()));
    let mut j: usize = 0;
    while j < sorted.len()
        invariant
            j <= sorted@.len(),
            out@.len() == j + 1,
            out@[0]@ == "frontmatter.md"@,
            forall|k: int| 0 <= k < j ==> (#[trigger] out@[k + 1])@ == sorted@[k]@,
        decreases sorted@.len() - j,
    {
        out.push(string_of(sorted[j].as_slice()));
        j = j + 1;
    }
    out.push(string_of(chars_of("appendix.md").as_slice()));
    proof {
        let sv = sorted@.map_values(|v: Vec<char>| v@);
        assert(strings_view(out@).subrange(1, out@.len() - 1) == sv);
        assert(sv.len() == chapter_files(input).len()) by {
            assert(sv.to_multiset().len() == chapter_files(input).to_multiset().len());
        }
    }
    out
}

/// The reading order does not depend on the order in which the directory
/// lists its files: two lists of the same names, each in source order, are
/// the same list.
pub proof fn lemma_source_order_unique(a: Seq<Seq<char>>, b: Seq<Seq<char>>)
    requires
        in_source_order(a),
        in_source_order(b),
        a.to_multiset() == b.to_multiset(),
    ensures
        a == b,
    decreases a.len(),
{
    broadcast use vstd::seq_lib::group_to_multiset_ensures;

    assert(a.len() == a.to_multiset().len());
    assert(b.len() == b.to_multiset().len());
    if a.len() > 0 {
        assert(b.to_multiset().count(a[0]) > 0);
        assert(a.to_multiset().count(b[0]) > 0);
        assert(b.contains(a[0]));
        assert(a.contains(b[0]));
        let i = choose|i: int| 0 <= i < b.len() && b[i] == a[0];
        let j = choose|j: int| 0 <= j < a.len() && a[j] == b[0];
        if i > 0 {
            assert(source_le(b[0], b[i]));
        } else {
            lemma_lex_total(b[0], b[0]);
        }
        if j > 0 {
            assert(source_le(a[0], a[j]));
        } else {
            lemma_lex_total(a[0], a[0]);
        }
        lemma_source_antisymmetric(a[0], b[0]);
        assert(a.remove(0) == a.drop_first());
        assert(b.remove(0) == b.drop_first());
        assert(a.drop_first().to_multiset() == b.drop_first().to_multiset());
        assert(in_source_order(a.drop_first())) by {
            assert forall|x: int, y: int| 0 <= x < y < a.drop_first().len() implies source_le(
                #[trigger] a.drop_first()[x],
                #[trigger] a.drop_first()[y],
            ) by {
                assert(a.drop_first()[x] == a[x + 1] && a.drop_first()[y] == a[y + 1]);
            }
        }
        assert(in_source_order(b.drop_first())) by {
            assert forall|x: int, y: int| 0 <= x < y < b.drop_first().len() implies source_le(
                #[trigger] b.drop_first()[x],
                #[trigger] b.drop_first()[y],
            ) by {
                assert(b.drop_first()[x] == b[x + 1] && b.drop_first()[y] == b[y + 1]);
            }
        }
        lemma_source_order_unique(a.drop_first(), b.drop_first());
        assert(a == seq![a[0]] + a.drop_first());
        assert(b == seq![b[0]] + b.drop_first());
    } else {
        assert(a == b);
    }
}

// ---------------------------------------------------------------------------
// Output path
// ---------------------------------------------------------------------------

/// Where the PDF goes when no path is given.
pub open spec fn default_pdf_path() -> Seq<char> {
    "dist/the-rust-programming-language.pdf"@
}

/// The first argument that is not blank, or the default path.
pub open spec fn spec_output_path(args: Seq<Seq<char>>) -> Seq<char>
    decreases args.len(),
{
    if args.len() == 0 {
        default_pdf_path()
    } else if trim(args[0]).len() > 0 {
        args[0]
    } else {
        spec_output_path(args.drop_first())
    }
}

/// The output path of the PDF: the first argument that is not blank, else
/// `dist/the-rust-programming-language.pdf`.
pub fn output_path(args: Vec<String>) -> (r: String)
    ensures
        r@ == spec_output_path(strings_view(args@)),
{
    let ghost a = strings_view(args@);
    let mut i: usize = 0;
    assert(a.skip(0) == a);
    while i < args.len()
        invariant
            i <= args@.len(),
            a == strings_view(args@),
            spec_output_path(a) == spec_output_path(a.skip(i as int)),
        decreases args@.len() - i,
    {
        let c = chars_of(args[i].as_str());
        assert(a.skip(i as int)[0] == c@);
        if !is_blank(c.as_slice()) {
            return string_of(c.as_slice());
        }
        assert(a.skip(i as int).drop_first() == a.skip(i + 1));
        i = i + 1;
    }
    string_of(chars_of("dist/the-rust-programming-language.pdf").as_slice())
}

} // verus!

//! The Typst export: what an adapter supplies, and the command lines of the
//! external programs (pandoc, typst) that the export runs.
use vstd::prelude::*;

use crate::parse::strings_view;
use crate::paths::{
    file_name, file_name_exec, is_absolute, named_parts, named_parts_exec, path_parts, ExportContext,
    GeneratedFiles, OutputLayout,
};
use crate::sources::{last_dot, last_dot_exec};
use crate::text::{append_all, chars_of, deep_chars, string_of};

verus! {

broadcast use vstd::string::group_string_axioms;

/// The Markdown an adapter prepared: the front matter and the body.
pub struct PreparedMarkdown {
    pub frontmatter: String,
    pub body: String,
}

/// What a book supplies to the Typst export. Implementations read and
/// write files; errors are messages.
pub trait TypstAdapter {
    /// The files the export writes.
    fn output_layout(&self) -> OutputLayout;

    /// The pandoc input format of the prepared Markdown.
    fn pandoc_format(&self) -> &str;

    /// Reads the book's sources and turns them into plain Markdown.
    fn prepare_markdown(&self, ctx: &ExportContext) -> Result<PreparedMarkdown, String>;

    /// The Lua filter pandoc runs with, if any.
    fn pandoc_filter(&self, ctx: &ExportContext) -> Option<String>;

    /// Rewrites the Typst body that pandoc produced.
    fn postprocess_body_typ(&self, ctx: &ExportContext, body_typ_path: &str) -> Result<(), String>;

    /// The Typst file that includes the front matter and the body.
    fn build_wrapper(&self, ctx: &ExportContext, files: &GeneratedFiles) -> Result<String, String>;
}

// ---------------------------------------------------------------------------
// Command lines
// ---------------------------------------------------------------------------

/// The arguments of pandoc converting `input` (in `format`) to Typst in
/// `output`, without line wrapping, with the Lua filter if there is one.
pub open spec fn spec_pandoc_args(
    input: Seq<char>,
    output: Seq<char>,
    format: Seq<char>,
    filter: Option<Seq<char>>,
) -> Seq<Seq<char>> {
    seq![input, "--quiet"@, "-f"@, format, "-t"@, "typst"@, "--wrap=none"@] + match filter {
        Some(f) => seq!["--lua-filter"@, f],
        None => Seq::empty(),
    } + seq!["-o"@, output]
}

fn push_string(v: &mut Vec<String>, s: String)
    ensures
        strings_view(final(v)@) == strings_view(old(v)@).push(s@),
{
    v.push(s);
    assert(strings_view(v@) == strings_view(old(v)@).push(s@));
}

fn owned(s: &str) -> (r: String)
    ensures
        r@ == s@,
{
    string_of(chars_of(s).as_slice())
}

/// The arguments to run pandoc with.
pub fn pandoc_args(input: &str, output: &str, format: &str, filter: Option<&str>) -> (r: Vec<
    String,
>)
    ensures
        strings_view(r@) == spec_pandoc_args(
            input@,
            output@,
            format@,
            match filter {
                Some(f) => Some(f@),
                None => None,
            },
        ),
{
    let mut r: Vec<String> = Vec::new();
    push_string(&mut r, owned(input));
    push_string(&mut r, owned("--quiet"));
    push_string(&mut r, owned("-f"));
    push_string(&mut r, owned(format));
    push_string(&mut r, owned("-t"));
    push_string(&mut r, owned("typst"));
    push_string(&mut r, owned("--wrap=none"));
    match filter {
        Some(f) => {
            push_string(&mut r, owned("--lua-filter"));
            push_string(&mut r, owned(f));
        },
        None => {},
    }
    push_string(&mut r, owned("-o"));
    push_string(&mut r, owned(output));
    r
}

/// The arguments of typst compiling `input` into `output`, with `root` as
/// the project root.
pub open spec fn spec_typst_args(root: Seq<char>, input: Seq<char>, output: Seq<char>) -> Seq<
    Seq<char>,
> {
    seq!["compile"@, "--root"@, root, input, output]
}

/// The arguments to run typst with.
pub fn typst_args(root: &str, input: &str, output: &str) -> (r: Vec<String>)
    ensures
        strings_view(r@) == spec_typst_args(root@, input@, output@),
{
    let mut r: Vec<String> = Vec::new();
    push_string(&mut r, owned("compile"));
    push_string(&mut r, owned("--root"));
    push_string(&mut r, owned(root));
    push_string(&mut r, owned(input));
    push_string(&mut r, owned(output));
    r
}

// ---------------------------------------------------------------------------
// Program names
// ---------------------------------------------------------------------------

/// The path begins with a `.` component (`./name` or `.`).
pub open spec fn starts_at_current_dir(p: Seq<char>) -> bool {
    !is_absolute(p) && p.len() > 0 && p[0] == '.' && (p.len() == 1 || p[1] == '/')
}

/// Number of components of the path (`Path::components().count()` on Unix):
/// the root, a leading `.`, and each name.
pub open spec fn component_count(p: Seq<char>) -> nat {
    (if is_absolute(p) {
        1nat
    } else {
        0nat
    }) + (if starts_at_current_dir(p) {
        1nat
    } else {
        0nat
    }) + named_parts(path_parts(p)).len()
}

/// The program name is a path (more than one component) rather than a
/// name to look up.
pub open spec fn spec_names_a_path(name: Seq<char>) -> bool {
    component_count(name) > 1
}

/// Whether the program is given as a path (it has more than one
/// component), so that it is run as it is.
pub fn names_a_path(name: &str) -> (b: bool)
    ensures
        b == spec_names_a_path(name@),
{
    let p = chars_of(name);
    let names = named_parts_exec(p.as_slice());
    let rooted: usize = if p.len() > 0 && p[0] == '/' {
        1
    } else {
        0
    };
    let cur: usize = if !(p.len() > 0 && p[0] == '/') && p.len() > 0 && p[0] == '.' && (p.len() == 1
        || p[1] == '/') {
        1
    } else {
        0
    };
    proof {
        assert(names@.len() == named_parts(path_parts(p@)).len());
    }
    if names.len() > 1 {
        true
    } else {
        rooted + cur + names.len() > 1
    }
}

/// The file name has an extension: a `'.'` other than at its start
/// (`Path::extension().is_some()`).
pub open spec fn has_extension(p: Seq<char>) -> bool {
    match file_name(p) {
        Some(f) => match last_dot(f) {
            Some(k) => k > 0,
            None => false,
        },
        None => false,
    }
}

/// The names a program may have on disk: on Windows, where the name has no
/// extension, with `.exe`, `.cmd` and `.bat` tried before the bare name;
/// elsewhere the name alone.
pub open spec fn spec_program_candidates(name: Seq<char>, windows: bool) -> Seq<Seq<char>> {
    if windows && !has_extension(name) {
        seq![name + ".exe"@, name + ".cmd"@, name + ".bat"@, name]
    } else {
        seq![name]
    }
}

fn has_extension_exec(p: &[char]) -> (b: bool)
    ensures
        b == has_extension(p@),
{
    match file_name_exec(p) {
        Some(f) => match last_dot_exec(f.as_slice()) {
            Some(k) => k > 0,
            None => false,
        },
        None => false,
    }
}

/// The names to look the program up by.
pub fn program_candidates(name: &str, windows: bool) -> (r: Vec<String>)
    ensures
        strings_view(r@) == spec_program_candidates(name@, windows),
{
    let p = chars_of(name);
    let mut r: Vec<String> = Vec::new();
    if windows && !has_extension_exec(p.as_slice()) {
        let mut exe = chars_of(name);
        append_all(&mut exe, chars_of(".exe").as_slice());
        let mut cmd = chars_of(name);
        append_all(&mut cmd, chars_of(".cmd").as_slice());
        let mut bat = chars_of(name);
        append_all(&mut bat, chars_of(".bat").as_slice());
        push_string(&mut r, string_of(exe.as_slice()));
        push_string(&mut r, string_of(cmd.as_slice()));
        push_string(&mut r, string_of(bat.as_slice()));
        push_string(&mut r, owned(name));
    } else {
        push_string(&mut r, owned(name));
    }
    r
}

} // verus!

//! File-system paths of the Typst export, as text with `'/'` separators
//! (Unix path rules): joining, normalising, containment, and relative paths.
use vstd::prelude::*;

use crate::parse::opt_view;
use crate::text::{
    append_all, chars_of, copy_range, deep_chars, has_prefix, join, join_exec, replace_all,
    replace_all_exec, string_of,
};

verus! {

broadcast use vstd::string::group_string_axioms;

/// Where the Typst output goes when no directory is given, relative to the
/// repository root.
pub open spec fn default_output_dir() -> Seq<char> {
    "dist/typst"@
}

/// Where the export runs: the repository root and the output directory.
pub struct ExportContext {
    pub repo_root: String,
    pub output_dir: String,
}

impl ExportContext {
    pub fn new(repo_root: String, output_dir: String) -> (r: Self)
        ensures
            r.repo_root@ == repo_root@,
            r.output_dir@ == output_dir@,
    {
        ExportContext { repo_root, output_dir }
    }
}

/// The files an export writes, as an adapter names them: relative paths
/// (or absolute ones).
pub struct OutputLayout {
    pub frontmatter_md: String,
    pub body_md: String,
    pub frontmatter_typ: String,
    pub body_typ: String,
    pub wrapper_typ: String,
    pub pdf: String,
}

/// The files an export writes, resolved.
pub struct GeneratedFiles {
    pub frontmatter_md: String,
    pub body_md: String,
    pub frontmatter_typ: String,
    pub body_typ: String,
    pub wrapper_typ: String,
    pub pdf: String,
}

// ---------------------------------------------------------------------------
// Joining
// ---------------------------------------------------------------------------

/// The path begins at the root (`Path::is_absolute` on Unix). Paths here
/// follow Unix rules only: `'/'` is the one separator and the one root;
/// Windows prefixes and `'\\'` separators are not modelled.
pub open spec fn is_absolute(p: Seq<char>) -> bool {
    p.len() > 0 && p[0] == '/'
}

/// `base` joined with `p` (`Path::join` on Unix): `p` where it is absolute;
/// else `base`, a `'/'` where `base` is not empty and does not already end
/// with one, and `p`.
pub open spec fn join_path(base: Seq<char>, p: Seq<char>) -> Seq<char> {
    if is_absolute(p) {
        p
    } else if base.len() == 0 || base.last() == '/' {
        base + p
    } else {
        base + seq!['/'] + p
    }
}

/// `candidate` resolved against `base`: itself where absolute, else joined
/// to `base`.
pub open spec fn spec_resolve_path(base: Seq<char>, candidate: Seq<char>) -> Seq<char> {
    if is_absolute(candidate) {
        candidate
    } else {
        join_path(base, candidate)
    }
}

fn is_absolute_exec(p: &[char]) -> (b: bool)
    ensures
        b == is_absolute(p@),
{
    p.len() > 0 && p[0] == '/'
}

/// Joins `p` to `base`.
pub fn join_path_exec(base: &[char], p: &[char]) -> (r: Vec<char>)
    ensures
        r@ == join_path(base@, p@),
{
    if is_absolute_exec(p) {
        return copy_range(p, 0, p.len());
    }
    let mut r = copy_range(base, 0, base.len());
    if !(base.len() == 0 || base[base.len() - 1] == '/') {
        r.push('/');
    }
    append_all(&mut r, p);
    r
}

/// Resolves `candidate` against `base`.
pub fn resolve_path(base: &str, candidate: &str) -> (r: String)
    ensures
        r@ == spec_resolve_path(base@, candidate@),
{
    let b = chars_of(base);
    let c = chars_of(candidate);
    let r = join_path_exec(b.as_slice(), c.as_slice());
    string_of(r.as_slice())
}

impl GeneratedFiles {
    /// The layout's files: the Markdown and Typst files resolved against the
    /// output directory, the PDF against the repository root.
    pub fn from_layout(ctx: &ExportContext, layout: &OutputLayout) -> (r: Self)
        ensures
            r.frontmatter_md@ == spec_resolve_path(ctx.output_dir@, layout.frontmatter_md@),
            r.body_md@ == spec_resolve_path(ctx.output_dir@, layout.body_md@),
            r.frontmatter_typ@ == spec_resolve_path(ctx.output_dir@, layout.frontmatter_typ@),
            r.body_typ@ == spec_resolve_path(ctx.output_dir@, layout.body_typ@),
            r.wrapper_typ@ == spec_resolve_path(ctx.output_dir@, layout.wrapper_typ@),
            r.pdf@ == spec_resolve_path(ctx.repo_root@, layout.pdf@),
    {
        GeneratedFiles {
            frontmatter_md: resolve_path(ctx.output_dir.as_str(), layout.frontmatter_md.as_str()),
            body_md: resolve_path(ctx.output_dir.as_str(), layout.body_md.as_str()),
            frontmatter_typ: resolve_path(ctx.output_dir.as_str(), layout.frontmatter_typ.as_str()),
            body_typ: resolve_path(ctx.output_dir.as_str(), layout.body_typ.as_str()),
            wrapper_typ: resolve_path(ctx.output_dir.as_str(), layout.wrapper_typ.as_str()),
            pdf: resolve_path(ctx.repo_root.as_str(), layout.pdf.as_str()),
        }
    }
}

// ---------------------------------------------------------------------------
// Normalising
// ---------------------------------------------------------------------------

/// The parts of `cur + s` between `'/'` separators, where `cur` is the part
/// read so far; empty parts included.
pub open spec fn parts_from(cur: Seq<char>, s: Seq<char>) -> Seq<Seq<char>>
    decreases s.len(),
{
    if s.len() == 0 {
        seq![cur]
    } else if s[0] == '/' {
        seq![cur] + parts_from(Seq::empty(), s.drop_first())
    } else {
        parts_from(cur.push(s[0]), s.drop_first())
    }
}

/// The parts of `p` between its `'/'` separators.
pub open spec fn path_parts(p: Seq<char>) -> Seq<Seq<char>> {
    parts_from(Seq::empty(), p)
}

/// The names that the parts leave after `.` and empty parts are skipped
/// and each `..` drops the name before it (if any).
pub open spec fn resolve_dots(parts: Seq<Seq<char>>) -> Seq<Seq<char>>
    decreases parts.len(),
{
    if parts.len() == 0 {
        Seq::empty()
    } else {
        let names = resolve_dots(parts.drop_last());
        let p = parts.last();
        if p.len() == 0 || p == seq!['.'] {
            names
        } else if p == seq!['.', '.'] {
            if names.len() > 0 {
                names.drop_last()
            } else {
                names
            }
        } else {
            names.push(p)
        }
    }
}

/// The names of the normalised path.
pub open spec fn normal_names(p: Seq<char>) -> Seq<Seq<char>> {
    resolve_dots(path_parts(p))
}

/// The parts of a path that are names (`..` included): neither empty nor
/// `.`.
pub open spec fn named_parts(parts: Seq<Seq<char>>) -> Seq<Seq<char>>
    decreases parts.len(),
{
    if parts.len() == 0 {
        Seq::empty()
    } else {
        let rest = named_parts(parts.drop_last());
        let p = parts.last();
        if p.len() == 0 || p == seq!['.'] {
            rest
        } else {
            rest.push(p)
        }
    }
}

/// The last component of the path where it is a name (`Path::file_name`).
pub open spec fn file_name(p: Seq<char>) -> Option<Seq<char>> {
    let ns = named_parts(path_parts(p));
    if ns.len() == 0 || ns.last() == seq!['.', '.'] {
        None
    } else {
        Some(ns.last())
    }
}

/// The parts of the path that are names.
pub fn named_parts_exec(p: &[char]) -> (v: Vec<Vec<char>>)
    ensures
        deep_chars(v@) == named_parts(path_parts(p@)),
{
    let parts = path_parts_exec(p);
    let ghost ps = deep_chars(parts@);
    let mut names: Vec<Vec<char>> = Vec::new();
    let mut i: usize = 0;
    while i < parts.len()
        invariant
            i <= parts@.len(),
            ps == deep_chars(parts@),
            ps == path_parts(p@),
            deep_chars(names@) == named_parts(ps.take(i as int)),
        decreases parts@.len() - i,
    {
        assert(ps.take(i + 1).drop_last() == ps.take(i as int));
        assert(ps.take(i + 1).last() == parts@[i as int]@);
        let part = parts[i].as_slice();
        let dot: Vec<char> = vec!['.'];
        assert(dot@ == seq!['.']);
        if !(part.len() == 0 || crate::text::chars_eq(part, dot.as_slice())) {
            let ghost before = deep_chars(names@);
            let v = copy_range(part, 0, part.len());
            assert(v@ == part@);
            names.push(v);
            assert(deep_chars(names@) == before.push(part@));
        }
        i = i + 1;
    }
    assert(ps.take(parts@.len() as int) == ps);
    names
}

/// The file name of the path (`Path::file_name`).
pub fn file_name_exec(p: &[char]) -> (r: Option<Vec<char>>)
    ensures
        match r {
            Some(f) => file_name(p@) == Some(f@),
            None => file_name(p@) is None,
        },
{
    let names = named_parts_exec(p);
    if names.len() == 0 {
        return None;
    }
    let last = names[names.len() - 1].as_slice();
    assert(last@ == named_parts(path_parts(p@)).last());
    let dotdot: Vec<char> = vec!['.', '.'];
    assert(dotdot@ == seq!['.', '.']);
    if crate::text::chars_eq(last, dotdot.as_slice()) {
        return None;
    }
    let f = copy_range(last, 0, last.len());
    assert(f@ == last@);
    Some(f)
}

/// `p` with `.` and `..` resolved lexically and repeated separators removed:
/// `'/'` where `p` is absolute, followed by the names joined by `'/'`.
pub open spec fn spec_normalize_absolute_path(p: Seq<char>) -> Seq<char> {
    if is_absolute(p) {
        seq!['/'] + join(normal_names(p), seq!['/'])
    } else {
        join(normal_names(p), seq!['/'])
    }
}

/// Splits a path at its separators.
pub fn path_parts_exec(s: &[char]) -> (v: Vec<Vec<char>>)
    ensures
        deep_chars(v@) == path_parts(s@),
{
    let mut out: Vec<Vec<char>> = Vec::new();
    let mut cur: Vec<char> = Vec::new();
    let mut i: usize = 0;
    assert(s@.skip(0) == s@);
    while i < s.len()
        invariant
            i <= s@.len(),
            deep_chars(out@) + parts_from(cur@, s@.skip(i as int)) == path_parts(s@),
        decreases s@.len() - i,
    {
        let ghost rest = s@.skip(i as int);
        let ghost cur0 = cur@;
        assert(rest.drop_first() == s@.skip(i + 1));
        let c = s[i];
        assert(rest[0] == c);
        if c == '/' {
            let ghost before = deep_chars(out@);
            out.push(cur);
            assert(deep_chars(out@) == before.push(cur0));
            assert(before.push(cur0) + parts_from(Seq::empty(), rest.drop_first()) == before + (
            seq![cur0] + parts_from(Seq::empty(), rest.drop_first())));
            cur = Vec::new();
        } else {
            assert(parts_from(cur0, rest) == parts_from(cur0.push(c), rest.drop_first()));
            cur.push(c);
        }
        i = i + 1;
    }
    let ghost before = deep_chars(out@);
    let ghost last = cur@;
    out.push(cur);
    assert(deep_chars(out@) == before.push(last));
    out
}

/// The names of the normalised path.
fn normal_names_exec(p: &[char]) -> (v: Vec<Vec<char>>)
    ensures
        deep_chars(v@) == normal_names(p@),
{
    let parts = path_parts_exec(p);
    let ghost ps = deep_chars(parts@);
    let mut names: Vec<Vec<char>> = Vec::new();
    let mut i: usize = 0;
    while i < parts.len()
        invariant
            i <= parts@.len(),
            ps == deep_chars(parts@),
            deep_chars(names@) == resolve_dots(ps.take(i as int)),
        decreases parts@.len() - i,
    {
        assert(ps.take(i + 1).drop_last() == ps.take(i as int));
        assert(ps.take(i + 1).last() == parts@[i as int]@);
        let part = parts[i].as_slice();
        let ghost before = deep_chars(names@);
        let dot: Vec<char> = vec!['.'];
        let dotdot: Vec<char> = vec!['.', '.'];
        assert(dot@ == seq!['.']);
        assert(dotdot@ == seq!['.', '.']);
        if part.len() == 0 || crate::text::chars_eq(part, dot.as_slice()) {
        } else if crate::text::chars_eq(part, dotdot.as_slice()) {
            if names.len() > 0 {
                names.pop();
                assert(deep_chars(names@) == before.drop_last());
            }
        } else {
            let v = copy_range(part, 0, part.len());
            assert(v@ == part@);
            names.push(v);
            assert(deep_chars(names@) == before.push(part@));
        }
        i = i + 1;
    }
    assert(ps.take(parts@.len() as int) == ps);
    names
}

/// Normalises a path lexically: resolves `.` and `..` and removes repeated
/// separators.
pub fn normalize_absolute_path(path: &str) -> (r: String)
    ensures
        r@ == spec_normalize_absolute_path(path@),
{
    let p = chars_of(path);
    let r = normalize_chars(p.as_slice());
    string_of(r.as_slice())
}

fn normalize_chars(p: &[char]) -> (r: Vec<char>)
    ensures
        r@ == spec_normalize_absolute_path(p@),
{
    let names = normal_names_exec(p);
    let sep: Vec<char> = vec!['/'];
    assert(sep@ == seq!['/']);
    let joined = join_exec(&names, sep.as_slice());
    if is_absolute_exec(p) {
        let mut r: Vec<char> = vec!['/'];
        assert(r@ == seq!['/']);
        append_all(&mut r, joined.as_slice());
        r
    } else {
        joined
    }
}

/// `names` begins with `prefix`.
pub open spec fn names_start_with(names: Seq<Seq<char>>, prefix: Seq<Seq<char>>) -> bool {
    prefix.len() <= names.len() && names.take(prefix.len() as int) == prefix
}

/// The normalised root can begin the normalised output directory as far as
/// the root component goes: an absolute root needs an absolute directory; a
/// relative root needs a relative directory, unless it normalises to no names
/// at all (the empty path begins every path).
pub open spec fn roots_agree(repo_root: Seq<char>, output_dir: Seq<char>) -> bool {
    if is_absolute(repo_root) {
        is_absolute(output_dir)
    } else {
        !is_absolute(output_dir) || normal_names(repo_root).len() == 0
    }
}

/// After normalising both, `output_dir` begins with `repo_root`, component
/// by component (`Path::starts_with`): the root components agree, and the
/// names of the root begin those of the output directory.
pub open spec fn spec_output_dir_within_root(repo_root: Seq<char>, output_dir: Seq<char>) -> bool {
    roots_agree(repo_root, output_dir) && names_start_with(
        normal_names(output_dir),
        normal_names(repo_root),
    )
}

/// Whether the output directory lies inside the repository root.
pub fn output_dir_within_root(repo_root: &str, output_dir: &str) -> (b: bool)
    ensures
        b == spec_output_dir_within_root(repo_root@, output_dir@),
{
    let r = chars_of(repo_root);
    let o = chars_of(output_dir);
    within_root_chars(r.as_slice(), o.as_slice())
}

fn within_root_chars(root: &[char], out: &[char]) -> (b: bool)
    ensures
        b == spec_output_dir_within_root(root@, out@),
{
    let rn = normal_names_exec(root);
    let on = normal_names_exec(out);
    let ghost rs = deep_chars(rn@);
    let ghost os = deep_chars(on@);
    assert(rn@.len() == rs.len());
    if is_absolute_exec(root) {
        if !is_absolute_exec(out) {
            return false;
        }
    } else if is_absolute_exec(out) && rn.len() > 0 {
        return false;
    }
    if rn.len() > on.len() {
        return false;
    }
    let mut i: usize = 0;
    while i < rn.len()
        invariant
            i <= rn@.len() <= on@.len(),
            rs == deep_chars(rn@),
            os == deep_chars(on@),
            rs == normal_names(root@),
            os == normal_names(out@),
            roots_agree(root@, out@),
            os.take(i as int) == rs.take(i as int),
        decreases rn@.len() - i,
    {
        assert(rs[i as int] == rn@[i as int]@);
        assert(os[i as int] == on@[i as int]@);
        if !crate::text::chars_eq(rn[i].as_slice(), on[i].as_slice()) {
            assert(os.take(rs.len() as int)[i as int] == os[i as int]);
            assert(os.take(rs.len() as int) != rs);
            return false;
        }
        assert(os.take(i + 1) == os.take(i as int).push(os[i as int]));
        assert(rs.take(i + 1) == rs.take(i as int).push(rs[i as int]));
        i = i + 1;
    }
    assert(rs.take(rs.len() as int) == rs);
    true
}

// ---------------------------------------------------------------------------
// The output directory
// ---------------------------------------------------------------------------

/// Why a path was refused.
#[derive(Debug)]
pub enum PathError {
    /// The output directory is not inside the repository root.
    OutsideRepoRoot { output_dir: String, repo_root: String },
    /// No relative path leads from `from_dir` to `target`.
    NoRelativePath { from_dir: String, target: String },
}

/// The message of an error.
pub open spec fn spec_error_message(e: PathError) -> Seq<char> {
    match e {
        PathError::OutsideRepoRoot { output_dir, repo_root } => "output directory "@ + output_dir@
            + " must be inside repo root "@ + repo_root@,
        PathError::NoRelativePath { from_dir, target } => "could not compute relative path from "@
            + from_dir@ + " to "@ + target@,
    }
}

impl PathError {
    /// The error as a sentence.
    pub fn message(&self) -> (m: String)
        ensures
            m@ == spec_error_message(*self),
    {
        let (a, x, b, y) = match self {
            PathError::OutsideRepoRoot { output_dir, repo_root } => (
                "output directory ",
                output_dir,
                " must be inside repo root ",
                repo_root,
            ),
            PathError::NoRelativePath { from_dir, target } => (
                "could not compute relative path from ",
                from_dir,
                " to ",
                target,
            ),
        };
        let mut v = chars_of(a);
        append_all(&mut v, chars_of(x.as_str()).as_slice());
        append_all(&mut v, chars_of(b).as_slice());
        append_all(&mut v, chars_of(y.as_str()).as_slice());
        string_of(v.as_slice())
    }
}

/// The output directory the export uses: the one given, resolved against
/// the repository root (`dist/typst` where none is given); an error where it
/// is not inside the repository root.
pub open spec fn spec_resolve_output_dir(repo_root: Seq<char>, output_arg: Option<Seq<char>>) -> Result<
    Seq<char>,
    (Seq<char>, Seq<char>),
> {
    let output_dir = match output_arg {
        Some(p) => join_path(repo_root, p),
        None => join_path(repo_root, default_output_dir()),
    };
    if spec_output_dir_within_root(repo_root, output_dir) {
        Ok(output_dir)
    } else {
        Err((output_dir, repo_root))
    }
}

/// Resolves and checks the output directory.
pub fn resolve_output_dir(repo_root: &str, output_arg: Option<String>) -> (r: Result<
    String,
    PathError,
>)
    ensures
        match r {
            Ok(dir) => spec_resolve_output_dir(repo_root@, opt_view(output_arg)) == Ok::<
                Seq<char>,
                (Seq<char>, Seq<char>),
            >(dir@),
            Err(PathError::OutsideRepoRoot { output_dir, repo_root: root }) => spec_resolve_output_dir(
                repo_root@,
                opt_view(output_arg),
            ) == Err::<Seq<char>, (Seq<char>, Seq<char>)>((output_dir@, root@)),
            Err(PathError::NoRelativePath { .. }) => false,
        },
{
    let root = chars_of(repo_root);
    let arg = match output_arg {
        Some(p) => chars_of(p.as_str()),
        None => chars_of("dist/typst"),
    };
    let dir = join_path_exec(root.as_slice(), arg.as_slice());
    if within_root_chars(root.as_slice(), dir.as_slice()) {
        Ok(string_of(dir.as_slice()))
    } else {
        Err(
            PathError::OutsideRepoRoot {
                output_dir: string_of(dir.as_slice()),
                repo_root: string_of(root.as_slice()),
            },
        )
    }
}

// ---------------------------------------------------------------------------
// Laws of the output directory
// ---------------------------------------------------------------------------

proof fn lemma_parts_split(cur: Seq<char>, a: Seq<char>, x: Seq<char>)
    requires
        x.len() > 0,
        x[0] == '/',
    ensures
        parts_from(cur, a + x) == parts_from(cur, a) + parts_from(Seq::empty(), x.drop_first()),
    decreases a.len(),
{
    if a.len() == 0 {
        assert(a + x == x);
    } else {
        assert((a + x).drop_first() == a.drop_first() + x);
        assert((a + x)[0] == a[0]);
        if a[0] == '/' {
            lemma_parts_split(Seq::empty(), a.drop_first(), x);
        } else {
            lemma_parts_split(cur.push(a[0]), a.drop_first(), x);
        }
    }
}

/// The parts of `a + "/" + b` are those of `a` followed by those of `b`.
proof fn lemma_parts_join(a: Seq<char>, b: Seq<char>)
    ensures
        path_parts(a + seq!['/'] + b) == path_parts(a) + path_parts(b),
{
    lemma_parts_split(Seq::empty(), a, seq!['/'] + b);
    assert(a + seq!['/'] + b == a + (seq!['/'] + b));
    assert((seq!['/'] + b).drop_first() == b);
}

/// No part of the path is `..`.
pub open spec fn never_climbs(p: Seq<char>) -> bool {
    forall|i: int| 0 <= i < path_parts(p).len() ==> #[trigger] path_parts(p)[i] != seq!['.', '.']
}

proof fn lemma_resolve_dots_append(x: Seq<Seq<char>>, y: Seq<Seq<char>>)
    requires
        forall|i: int| 0 <= i < y.len() ==> #[trigger] y[i] != seq!['.', '.'],
    ensures
        resolve_dots(x + y) == resolve_dots(x) + resolve_dots(y),
    decreases y.len(),
{
    if y.len() == 0 {
        assert(x + y == x);
    } else {
        assert forall|i: int| 0 <= i < y.drop_last().len() implies #[trigger] y.drop_last()[i]
            != seq!['.', '.'] by {
            assert(y.drop_last()[i] == y[i]);
        }
        lemma_resolve_dots_append(x, y.drop_last());
        assert((x + y).drop_last() == x + y.drop_last());
        assert((x + y).last() == y.last());
        assert(y[y.len() - 1] != seq!['.', '.']);
    }
}

/// An output directory given relative to the root, with no `..` among its
/// parts, lies inside the root.
pub proof fn lemma_relative_dir_within_root(repo_root: Seq<char>, p: Seq<char>)
    requires
        !is_absolute(p),
        never_climbs(p),
    ensures
        spec_output_dir_within_root(repo_root, join_path(repo_root, p)),
{
    let j = join_path(repo_root, p);
    let pp = path_parts(p);
    assert(forall|i: int| 0 <= i < pp.len() ==> #[trigger] pp[i] != seq!['.', '.']);
    if repo_root.len() == 0 {
        assert(j == p);
        assert(normal_names(repo_root) == Seq::<Seq<char>>::empty()) by {
            let ps = path_parts(repo_root);
            assert(ps == seq![Seq::<char>::empty()]);
            assert(ps.last().len() == 0);
            assert(ps.drop_last() == Seq::<Seq<char>>::empty());
            assert(resolve_dots(ps.drop_last()) == Seq::<Seq<char>>::empty());
        }
        assert(normal_names(j).take(0) == Seq::<Seq<char>>::empty());
    } else if repo_root.last() == '/' {
        let r0 = repo_root.drop_last();
        assert(repo_root == r0 + seq!['/'] + Seq::<char>::empty());
        lemma_parts_join(r0, Seq::empty());
        assert(path_parts(Seq::<char>::empty()) == seq![Seq::<char>::empty()]);
        assert(j == r0 + seq!['/'] + p);
        lemma_parts_join(r0, p);
        lemma_resolve_dots_append(path_parts(r0), pp);
        let rp = path_parts(r0) + seq![Seq::<char>::empty()];
        assert(rp.drop_last() == path_parts(r0));
        assert(normal_names(repo_root) == resolve_dots(path_parts(r0)));
        let rn = normal_names(repo_root);
        assert((rn + resolve_dots(pp)).take(rn.len() as int) == rn);
        assert(j[0] == repo_root[0]);
    } else {
        assert(j == repo_root + seq!['/'] + p);
        lemma_parts_join(repo_root, p);
        lemma_resolve_dots_append(path_parts(repo_root), pp);
        let rn = normal_names(repo_root);
        assert((rn + resolve_dots(pp)).take(rn.len() as int) == rn);
        assert(j[0] == repo_root[0]);
    }
}

proof fn lemma_parts_without_dots(cur: Seq<char>, s: Seq<char>)
    requires
        !cur.contains('.'),
        !s.contains('.'),
    ensures
        forall|i: int| 0 <= i < parts_from(cur, s).len() ==> !(#[trigger] parts_from(cur, s)[i]).contains('.'),
    decreases s.len(),
{
    if s.len() > 0 {
        assert(s[0] != '.');
        assert(!s.drop_first().contains('.')) by {
            if s.drop_first().contains('.') {
                let k = choose|k: int| 0 <= k < s.drop_first().len() && s.drop_first()[k] == '.';
                assert(s[k + 1] == '.');
            }
        }
        if s[0] == '/' {
            lemma_parts_without_dots(Seq::empty(), s.drop_first());
            let rest = parts_from(Seq::empty(), s.drop_first());
            assert(parts_from(cur, s) == seq![cur] + rest);
            assert forall|i: int| 0 <= i < (seq![cur] + rest).len() implies !(#[trigger] (seq![cur] + rest)[i]).contains('.') by {
                if i > 0 {
                    assert((seq![cur] + rest)[i] == rest[i - 1]);
                }
            }
        } else {
            assert(!cur.push(s[0]).contains('.')) by {
                if cur.push(s[0]).contains('.') {
                    let k = choose|k: int| 0 <= k < cur.push(s[0]).len() && cur.push(s[0])[k] == '.';
                    if k < cur.len() {
                        assert(cur[k] == '.');
                    }
                }
            }
            lemma_parts_without_dots(cur.push(s[0]), s.drop_first());
            assert(parts_from(cur, s) == parts_from(cur.push(s[0]), s.drop_first()));
        }
    } else {
        assert(parts_from(cur, s) == seq![cur]);
    }
}

/// A relative path without any `'.'` never climbs out with `..`.
pub proof fn lemma_dotless_never_climbs(p: Seq<char>)
    requires
        !p.contains('.'),
    ensures
        never_climbs(p),
{
    lemma_parts_without_dots(Seq::empty(), p);
    assert forall|i: int| 0 <= i < path_parts(p).len() implies #[trigger] path_parts(p)[i] != seq!['.', '.'] by {
        if path_parts(p)[i] == seq!['.', '.'] {
            assert(path_parts(p)[i][0] == '.');
        }
    }
}

/// The default output directory is always accepted, whatever the root.
pub proof fn lemma_default_output_dir_accepted(repo_root: Seq<char>)
    ensures
        spec_resolve_output_dir(repo_root, None) is Ok,
{
    reveal_strlit("dist/typst");
    assert(!default_output_dir().contains('.')) by {
        if default_output_dir().contains('.') {
            let k = choose|k: int| 0 <= k < default_output_dir().len() && default_output_dir()[k] == '.';
            assert(default_output_dir()[k] != '.');
        }
    }
    lemma_dotless_never_climbs(default_output_dir());
    lemma_relative_dir_within_root(repo_root, default_output_dir());
}

/// A directory that `resolve_output_dir` accepts lies inside the root.
pub proof fn lemma_accepted_dir_within_root(repo_root: Seq<char>, output_arg: Option<Seq<char>>)
    ensures
        spec_resolve_output_dir(repo_root, output_arg) matches Ok(dir) ==> spec_output_dir_within_root(
            repo_root,
            dir,
        ),
{
}

/// A name of a normalised path: not empty, not `.` or `..`, no `'/'`.
pub open spec fn is_clean_name(n: Seq<char>) -> bool {
    n.len() > 0 && n != seq!['.'] && n != seq!['.', '.'] && !n.contains('/')
}

proof fn lemma_parts_no_slash(cur: Seq<char>, s: Seq<char>)
    requires
        !cur.contains('/'),
    ensures
        forall|i: int| 0 <= i < parts_from(cur, s).len() ==> !(#[trigger] parts_from(cur, s)[i]).contains('/'),
    decreases s.len(),
{
    if s.len() > 0 {
        if s[0] == '/' {
            lemma_parts_no_slash(Seq::empty(), s.drop_first());
            let rest = parts_from(Seq::empty(), s.drop_first());
            assert(parts_from(cur, s) == seq![cur] + rest);
            assert forall|i: int| 0 <= i < (seq![cur] + rest).len() implies !(#[trigger] (seq![cur] + rest)[i]).contains('/') by {
                if i > 0 {
                    assert((seq![cur] + rest)[i] == rest[i - 1]);
                }
            }
        } else {
            assert(!cur.push(s[0]).contains('/')) by {
                if cur.push(s[0]).contains('/') {
                    let k = choose|k: int| 0 <= k < cur.push(s[0]).len() && cur.push(s[0])[k] == '/';
                    if k < cur.len() {
                        assert(cur[k] == '/');
                    }
                }
            }
            lemma_parts_no_slash(cur.push(s[0]), s.drop_first());
            assert(parts_from(cur, s) == parts_from(cur.push(s[0]), s.drop_first()));
        }
    } else {
        assert(parts_from(cur, s) == seq![cur]);
    }
}

proof fn lemma_resolve_dots_clean(parts: Seq<Seq<char>>)
    requires
        forall|i: int| 0 <= i < parts.len() ==> !(#[trigger] parts[i]).contains('/'),
    ensures
        forall|i: int| 0 <= i < resolve_dots(parts).len() ==> is_clean_name(#[trigger] resolve_dots(parts)[i]),
    decreases parts.len(),
{
    if parts.len() > 0 {
        assert forall|i: int| 0 <= i < parts.drop_last().len() implies !(#[trigger] parts.drop_last()[i]).contains('/') by {
            assert(parts.drop_last()[i] == parts[i]);
        }
        lemma_resolve_dots_clean(parts.drop_last());
        let names = resolve_dots(parts.drop_last());
        let p = parts.last();
        assert(!parts[parts.len() - 1].contains('/'));
        if !(p.len() == 0 || p == seq!['.']) && p != seq!['.', '.'] {
            assert forall|i: int| 0 <= i < names.push(p).len() implies is_clean_name(#[trigger] names.push(p)[i]) by {
                if i < names.len() {
                    assert(names.push(p)[i] == names[i]);
                }
            }
        } else if p == seq!['.', '.'] && names.len() > 0 {
            assert forall|i: int| 0 <= i < names.drop_last().len() implies is_clean_name(#[trigger] names.drop_last()[i]) by {
                assert(names.drop_last()[i] == names[i]);
            }
        }
    }
}

/// The names of a normalised path are clean.
pub proof fn lemma_normal_names_clean(p: Seq<char>)
    ensures
        forall|i: int| 0 <= i < normal_names(p).len() ==> is_clean_name(#[trigger] normal_names(p)[i]),
{
    lemma_parts_no_slash(Seq::empty(), p);
    lemma_resolve_dots_clean(path_parts(p));
}

proof fn lemma_parts_of_name(cur: Seq<char>, s: Seq<char>)
    requires
        !s.contains('/'),
    ensures
        parts_from(cur, s) == seq![cur + s],
    decreases s.len(),
{
    if s.len() > 0 {
        assert(s[0] != '/');
        assert(!s.drop_first().contains('/')) by {
            if s.drop_first().contains('/') {
                let k = choose|k: int| 0 <= k < s.drop_first().len() && s.drop_first()[k] == '/';
                assert(s[k + 1] == '/');
            }
        }
        lemma_parts_of_name(cur.push(s[0]), s.drop_first());
        assert(cur.push(s[0]) + s.drop_first() == cur + s);
    } else {
        assert(cur + s == cur);
    }
}

proof fn lemma_parts_of_joined(names: Seq<Seq<char>>)
    requires
        names.len() > 0,
        forall|i: int| 0 <= i < names.len() ==> is_clean_name(#[trigger] names[i]),
    ensures
        path_parts(join(names, seq!['/'])) == names,
    decreases names.len(),
{
    let last = names.last();
    assert(is_clean_name(names[names.len() - 1]));
    lemma_parts_of_name(Seq::empty(), last);
    assert(Seq::<char>::empty() + last == last);
    if names.len() == 1 {
        assert(names == seq![last]);
    } else {
        let dl = names.drop_last();
        assert forall|i: int| 0 <= i < dl.len() implies is_clean_name(#[trigger] dl[i]) by {
            assert(dl[i] == names[i]);
        }
        lemma_parts_of_joined(dl);
        lemma_parts_join(join(dl, seq!['/']), last);
        assert(names == dl.push(last));
    }
}

proof fn lemma_resolve_clean_names(names: Seq<Seq<char>>)
    requires
        forall|i: int| 0 <= i < names.len() ==> is_clean_name(#[trigger] names[i]),
    ensures
        resolve_dots(names) == names,
    decreases names.len(),
{
    if names.len() > 0 {
        assert forall|i: int| 0 <= i < names.drop_last().len() implies is_clean_name(#[trigger] names.drop_last()[i]) by {
            assert(names.drop_last()[i] == names[i]);
        }
        lemma_resolve_clean_names(names.drop_last());
        assert(is_clean_name(names[names.len() - 1]));
        assert(names.drop_last().push(names.last()) == names);
    }
}

/// The names of `"/"` followed by the clean names joined, or of the clean
/// names joined, are those names.
proof fn lemma_names_of_rendered(names: Seq<Seq<char>>, rooted: bool)
    requires
        forall|i: int| 0 <= i < names.len() ==> is_clean_name(#[trigger] names[i]),
    ensures
        normal_names(if rooted {
            seq!['/'] + join(names, seq!['/'])
        } else {
            join(names, seq!['/'])
        }) == names,
{
    let j = join(names, seq!['/']);
    let empty_parts = seq![Seq::<char>::empty()];
    assert(path_parts(Seq::<char>::empty()) == empty_parts);
    assert(resolve_dots(empty_parts) == Seq::<Seq<char>>::empty()) by {
        assert(empty_parts.drop_last() == Seq::<Seq<char>>::empty());
        assert(empty_parts.last().len() == 0);
        assert(resolve_dots(empty_parts.drop_last()) == Seq::<Seq<char>>::empty());
    }
    let jparts = if names.len() > 0 {
        lemma_parts_of_joined(names);
        names
    } else {
        assert(j == Seq::<char>::empty());
        empty_parts
    };
    assert(path_parts(j) == jparts);
    assert(forall|i: int| 0 <= i < jparts.len() ==> #[trigger] jparts[i] != seq!['.', '.']) by {
        assert forall|i: int| 0 <= i < jparts.len() implies #[trigger] jparts[i] != seq!['.', '.'] by {
            if names.len() > 0 {
                assert(is_clean_name(names[i]));
            }
        }
    }
    lemma_resolve_clean_names(names);
    if rooted {
        lemma_parts_join(Seq::empty(), j);
        assert(Seq::<char>::empty() + seq!['/'] + j == seq!['/'] + j);
        lemma_resolve_dots_append(empty_parts, jparts);
    }
}

/// Normalising a normalised path changes nothing.
pub proof fn lemma_normalize_idempotent(p: Seq<char>)
    ensures
        spec_normalize_absolute_path(spec_normalize_absolute_path(p)) == spec_normalize_absolute_path(p),
{
    let names = normal_names(p);
    lemma_normal_names_clean(p);
    let q = spec_normalize_absolute_path(p);
    lemma_names_of_rendered(names, is_absolute(p));
    assert(normal_names(q) == names);
    if is_absolute(p) {
        assert(q[0] == '/');
    } else if q.len() > 0 {
        assert(names.len() > 0);
        assert(is_clean_name(names[0]));
        lemma_join_starts_with_first(names, seq!['/']);
        assert(q[0] == names[0][0]);
        assert(!names[0].contains('/'));
        assert(names[0][0] != '/');
    }
    assert(is_absolute(q) == is_absolute(p));
}

proof fn lemma_join_starts_with_first(parts: Seq<Seq<char>>, sep: Seq<char>)
    requires
        parts.len() > 0,
        parts[0].len() > 0,
    ensures
        join(parts, sep).len() > 0,
        join(parts, sep)[0] == parts[0][0],
    decreases parts.len(),
{
    if parts.len() > 1 {
        assert(parts.drop_last()[0] == parts[0]);
        lemma_join_starts_with_first(parts.drop_last(), sep);
    }
}

// ---------------------------------------------------------------------------
// Relative paths
// ---------------------------------------------------------------------------

/// The result of `pathdiff::diff_paths(path, base)`, as text.
pub uninterp spec fn spec_diff_paths(path: Seq<char>, base: Seq<char>) -> Option<Seq<char>>;

/// `pathdiff::diff_paths(path, base)`, the path that leads from `base` to
/// `path`. Claimed: the result is a function of the two paths, named
/// `spec_diff_paths`. Nothing more is stated of it: the crate decides by
/// `Path::is_absolute` and walks `Path::components`, and both follow the
/// rules of the target platform. The path is turned into text with
/// `to_string_lossy`, which changes nothing for paths made from text.
#[verifier::external_body]
fn diff_paths(path: &str, base: &str) -> (r: Option<String>)
    ensures
        opt_view(r) == spec_diff_paths(path@, base@),
{
    pathdiff::diff_paths(path, base).map(|p| p.to_string_lossy().into_owned())
}

/// What a relative path comes to once the outside result is known: that
/// path with every `'\\'` turned into `'/'`, or an error where there is none.
pub open spec fn spec_relative_path(diff: Option<Seq<char>>) -> Option<Seq<char>> {
    match diff {
        Some(d) => Some(replace_all(d, seq!['\\'], seq!['/'])),
        None => None,
    }
}

/// Finishes a relative path from the result of `diff_paths`: backslashes
/// become forward slashes; no result is an error naming both paths.
pub fn relative_path_from_diff(from_dir: &str, target: &str, diff: Option<String>) -> (r: Result<
    String,
    PathError,
>)
    ensures
        match r {
            Ok(p) => spec_relative_path(opt_view(diff)) == Some(p@),
            Err(PathError::NoRelativePath { from_dir: f, target: t }) => diff is None && f@
                == from_dir@ && t@ == target@,
            Err(PathError::OutsideRepoRoot { .. }) => false,
        },
{
    match diff {
        Some(d) => {
            let c = chars_of(d.as_str());
            let backslash: Vec<char> = vec!['\\'];
            let slash: Vec<char> = vec!['/'];
            assert(backslash@ == seq!['\\']);
            assert(slash@ == seq!['/']);
            let v = replace_all_exec(c.as_slice(), backslash.as_slice(), slash.as_slice());
            Ok(string_of(v.as_slice()))
        },
        None => Err(
            PathError::NoRelativePath {
                from_dir: string_of(chars_of(from_dir).as_slice()),
                target: string_of(chars_of(target).as_slice()),
            },
        ),
    }
}

/// The path that leads from the directory `from_dir` to `target`, with
/// forward slashes.
pub fn relative_path(from_dir: &str, target: &str) -> (r: Result<String, PathError>)
    ensures
        match r {
            Ok(p) => spec_relative_path(spec_diff_paths(target@, from_dir@)) == Some(p@),
            Err(PathError::NoRelativePath { from_dir: f, target: t }) => spec_diff_paths(
                target@,
                from_dir@,
            ) is None && f@ == from_dir@ && t@ == target@,
            Err(PathError::OutsideRepoRoot { .. }) => false,
        },
{
    let diff = diff_paths(target, from_dir);
    relative_path_from_diff(from_dir, target, diff)
}

proof fn lemma_replace_removes_char(s: Seq<char>, c: char, r: Seq<char>)
    requires
        !r.contains(c),
    ensures
        !replace_all(s, seq![c], r).contains(c),
    decreases s.len(),
{
    if s.len() > 0 {
        let out = replace_all(s, seq![c], r);
        if has_prefix(s, seq![c]) {
            lemma_replace_removes_char(s.skip(1), c, r);
            let rest = replace_all(s.skip(1), seq![c], r);
            assert(out == r + rest);
            if out.contains(c) {
                let k = choose|k: int| 0 <= k < out.len() && out[k] == c;
                if k < r.len() {
                    assert(r[k] == c);
                } else {
                    assert(rest[k - r.len()] == c);
                }
            }
        } else {
            assert(s.subrange(0, 1) == seq![s[0]]);
            assert(s[0] != c);
            lemma_replace_removes_char(s.drop_first(), c, r);
            let rest = replace_all(s.drop_first(), seq![c], r);
            assert(out == seq![s[0]] + rest);
            if out.contains(c) {
                let k = choose|k: int| 0 <= k < out.len() && out[k] == c;
                if k > 0 {
                    assert(rest[k - 1] == c);
                }
            }
        }
    }
}

/// A relative path that `relative_path` gives has forward slashes only.
pub proof fn lemma_relative_path_has_no_backslash(diff: Option<Seq<char>>)
    ensures
        spec_relative_path(diff) matches Some(p) ==> !p.contains('\\'),
{
    if let Some(d) = diff {
        assert(!seq!['/'].contains('\\')) by {
            if seq!['/'].contains('\\') {
                assert(seq!['/'][0] == '/');
            }
        }
        lemma_replace_removes_char(d, '\\', seq!['/']);
    }
}

} // verus!

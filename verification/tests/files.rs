use rust_book_tools::export::{names_a_path, pandoc_args, program_candidates, typst_args};
use rust_book_tools::paths::{
    normalize_absolute_path, output_dir_within_root, relative_path, relative_path_from_diff,
    resolve_output_dir, resolve_path, ExportContext, GeneratedFiles, OutputLayout,
};
use rust_book_tools::sources::{filename_number, ordered_source_names, output_path};

#[test]
fn numbers_source_files() {
    assert_eq!(filename_number("chapter03.md"), 3);
    assert_eq!(filename_number("ch1-2.md"), 12);
    assert_eq!(filename_number("appendix.md"), u32::MAX);
    assert_eq!(filename_number("chapter99999999999.md"), u32::MAX);
    assert_eq!(filename_number("chapter4294967295.md"), 4294967295);
    assert_eq!(filename_number("v2.chapter1.md"), 21);
    assert_eq!(filename_number(".5"), 5);
    assert_eq!(filename_number("7.md5"), 7);
}

#[test]
fn numbers_source_files_by_their_file_name_only() {
    assert_eq!(filename_number("nostarch/chapter03.md"), 3);
    assert_eq!(filename_number("v2/chapter05.md"), 5);
    assert_eq!(filename_number("/book/v2/ch1-2.md"), 12);
    assert_eq!(filename_number("v2/chapter05.md/"), 5);
    assert_eq!(filename_number("v2/./chapter05.md"), 5);
    assert_eq!(filename_number("a/.."), u32::MAX);
    assert_eq!(filename_number("v7/.."), u32::MAX);
    assert_eq!(filename_number("/"), u32::MAX);
    assert_eq!(filename_number(""), u32::MAX);
    assert_eq!(filename_number("frontmatter.md"), u32::MAX);
}

#[test]
fn orders_source_files() {
    let names = vec![
        "chapter10.md".to_string(),
        "notes.txt".to_string(),
        "chapter02.md".to_string(),
        "chapter2a.md".to_string(),
        "chapterX.md".to_string(),
        "frontmatter.md".to_string(),
    ];
    assert_eq!(
        ordered_source_names(&names),
        vec![
            "frontmatter.md",
            "chapter02.md",
            "chapter2a.md",
            "chapter10.md",
            "chapterX.md",
            "appendix.md"
        ]
    );
    let mut reversed = names.clone();
    reversed.reverse();
    assert_eq!(ordered_source_names(&reversed), ordered_source_names(&names));
}

#[test]
fn output_path_takes_the_first_nonblank_argument() {
    assert_eq!(output_path(vec![" ".to_string(), "out.pdf".to_string()]), "out.pdf");
    assert_eq!(output_path(vec!["\t\u{3000}".to_string()]), "dist/the-rust-programming-language.pdf");
}

#[test]
fn resolves_paths() {
    assert_eq!(resolve_path("/repo", "a/b"), "/repo/a/b");
    assert_eq!(resolve_path("/repo/", "a"), "/repo/a");
    assert_eq!(resolve_path("/repo", "/abs"), "/abs");
    assert_eq!(resolve_path("", "a"), "a");
    let ctx = ExportContext::new("/repo".to_string(), "/repo/out".to_string());
    let layout = OutputLayout {
        frontmatter_md: "front.md".to_string(),
        body_md: "body.md".to_string(),
        frontmatter_typ: "front.typ".to_string(),
        body_typ: "body.typ".to_string(),
        wrapper_typ: "/tmp/wrapper.typ".to_string(),
        pdf: "dist/book.pdf".to_string(),
    };
    let files = GeneratedFiles::from_layout(&ctx, &layout);
    assert_eq!(files.frontmatter_md, "/repo/out/front.md");
    assert_eq!(files.body_typ, "/repo/out/body.typ");
    assert_eq!(files.wrapper_typ, "/tmp/wrapper.typ");
    assert_eq!(files.pdf, "/repo/dist/book.pdf");
}

#[test]
fn normalises_paths() {
    assert_eq!(normalize_absolute_path("/a/./b/../c//d/"), "/a/c/d");
    assert_eq!(normalize_absolute_path("/../x"), "/x");
    assert_eq!(normalize_absolute_path("a/../../b"), "b");
    assert_eq!(normalize_absolute_path(""), "");
    assert_eq!(normalize_absolute_path("/"), "/");
}

#[test]
fn checks_containment_lexically() {
    assert!(output_dir_within_root("/repo", "/repo/dist/../out"));
    assert!(output_dir_within_root("/repo", "/repo"));
    assert!(!output_dir_within_root("/repo", "/repo/../other"));
    assert!(!output_dir_within_root("/repo", "/repository"));
    assert!(!output_dir_within_root("/repo", "repo/x"));
    assert!(!output_dir_within_root("repo", "/repo/x"));
    assert!(output_dir_within_root("repo", "repo/x"));
    assert!(output_dir_within_root(".", "/x"));
    assert!(output_dir_within_root("", "/x"));
    assert!(output_dir_within_root("a/..", "/x"));
    assert!(output_dir_within_root("a/..", "x"));
    assert_eq!(resolve_output_dir(".", Some("/x".to_string())).ok(), Some("/x".to_string()));
    assert_eq!(resolve_output_dir("", Some("/x".to_string())).ok(), Some("/x".to_string()));
    assert!(resolve_output_dir("/repo", None).ok() == Some("/repo/dist/typst".to_string()));
    let err = resolve_output_dir("/repo", Some("../elsewhere".to_string())).err().unwrap();
    assert_eq!(
        err.message(),
        "output directory /repo/../elsewhere must be inside repo root /repo"
    );
}

#[test]
fn computes_relative_paths() {
    assert_eq!(relative_path("/foo/bar", "/foo/bar/baz").ok().unwrap(), "baz");
    assert_eq!(relative_path("/foo/bar/baz", "/foo/bar").ok().unwrap(), "..");
    assert_eq!(relative_path("/foo/bar/baz", "/foo/bar/quux").ok().unwrap(), "../quux");
    assert_eq!(relative_path("baz", "/foo/bar").ok().unwrap(), "/foo/bar");
    let err = relative_path("/foo", "bar").err().unwrap();
    assert_eq!(err.message(), "could not compute relative path from /foo to bar");
    assert_eq!(
        relative_path_from_diff("a", "b", Some("x\\y\\z".to_string())).ok().unwrap(),
        "x/y/z"
    );
}

#[test]
fn builds_command_lines() {
    assert_eq!(
        pandoc_args("in.md", "out.typ", "markdown", Some("f.lua")),
        vec!["in.md", "--quiet", "-f", "markdown", "-t", "typst", "--wrap=none", "--lua-filter", "f.lua", "-o", "out.typ"]
    );
    assert_eq!(
        pandoc_args("in.md", "out.typ", "gfm", None),
        vec!["in.md", "--quiet", "-f", "gfm", "-t", "typst", "--wrap=none", "-o", "out.typ"]
    );
    assert_eq!(typst_args("/r", "w.typ", "b.pdf"), vec!["compile", "--root", "/r", "w.typ", "b.pdf"]);
}

#[test]
fn finds_program_names() {
    assert!(!names_a_path("pandoc"));
    assert!(names_a_path("./pandoc"));
    assert!(names_a_path("/usr/bin/typst"));
    assert!(!names_a_path("pandoc/"));
    assert!(!names_a_path("/"));
    assert_eq!(program_candidates("pandoc", false), vec!["pandoc"]);
    assert_eq!(
        program_candidates("pandoc", true),
        vec!["pandoc.exe", "pandoc.cmd", "pandoc.bat", "pandoc"]
    );
    assert_eq!(program_candidates("pandoc.exe", true), vec!["pandoc.exe"]);
    assert_eq!(program_candidates(".profile", true).len(), 4);
}

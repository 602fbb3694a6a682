use rust_book_tools::paths::resolve_output_dir;

fn join(base: &str, rest: &str) -> String {
    format!("{}/{}", base, rest)
}

#[test]
fn resolve_output_dir_requires_output_to_stay_under_repo_root() {
    let temp = "/tmp/rust-book-tools-resolve-output";
    let repo_root = join(temp, "repo");

    let relative = resolve_output_dir(&repo_root, Some("dist/typst".to_string()))
        .ok()
        .unwrap();
    assert_eq!(relative, join(&repo_root, "dist/typst"));

    let absolute_inside = join(&repo_root, "custom/output");
    let resolved_inside = resolve_output_dir(&repo_root, Some(absolute_inside.clone()))
        .ok()
        .unwrap();
    assert_eq!(resolved_inside, absolute_inside);

    let absolute_outside = join(temp, "outside");
    let err = resolve_output_dir(&repo_root, Some(absolute_outside)).err().unwrap();
    assert!(err.message().contains("must be inside repo root"));
}

use frel_compiler::paths::{is_markdown, normalize, paths_equal, resolve_out_arg, sort_paths,
    OutChoice};

#[test]
fn markdown_extensions_recognized() {
    assert!(is_markdown(b"notes.md"));
    assert!(is_markdown(b"NOTES.MD"));
    assert!(is_markdown(b"guide.markdown"));
    assert!(is_markdown(b"dir/sub/guide.MarkDown"));
    assert!(!is_markdown(b"notes.txt"));
    assert!(!is_markdown(b"plain"));
    assert!(!is_markdown(b".md"));
    assert!(!is_markdown(b"dir.md/file"));
    assert!(!is_markdown(b""));
}

#[test]
fn normalize_collapses_dots() {
    assert_eq!(normalize(b"a/./b/../c"), b"a/c".to_vec());
    assert_eq!(normalize(b"/a//b/"), b"/a/b".to_vec());
    assert_eq!(normalize(b"./x"), b"x".to_vec());
    assert_eq!(normalize(b"a/.."), b"".to_vec());
}

#[test]
fn paths_equal_up_to_normal_form() {
    assert!(paths_equal(b"a/./b", b"a/b"));
    assert!(paths_equal(b"a/x/../b", b"a/b"));
    assert!(!paths_equal(b"a/b", b"a/c"));
}

#[test]
fn concatenation_order_lists_a_before_b() {
    let files = vec![b"b.md".to_vec(), b"a.markdown".to_vec()];
    let sorted = sort_paths(&files);
    assert_eq!(sorted, vec![b"a.markdown".to_vec(), b"b.md".to_vec()]);
}

#[test]
fn sort_is_case_insensitive() {
    let files = vec![b"B.md".to_vec(), b"a.md".to_vec(), b"C.md".to_vec()];
    let sorted = sort_paths(&files);
    assert_eq!(sorted, vec![b"a.md".to_vec(), b"B.md".to_vec(), b"C.md".to_vec()]);
}

#[test]
fn sort_keeps_every_path() {
    let files = vec![b"x.md".to_vec(), b"x.md".to_vec(), b"a.md".to_vec()];
    let sorted = sort_paths(&files);
    assert_eq!(sorted, vec![b"a.md".to_vec(), b"x.md".to_vec(), b"x.md".to_vec()]);
}

#[test]
fn out_path_from_arguments() {
    assert_eq!(resolve_out_arg(&vec![]), OutChoice::DefaultPath);
    assert_eq!(
        resolve_out_arg(&vec![b"--out".to_vec(), b"o.md".to_vec()]),
        OutChoice::Chosen(b"o.md".to_vec())
    );
    assert_eq!(
        resolve_out_arg(&vec![b"-o".to_vec(), b"o.md".to_vec()]),
        OutChoice::Chosen(b"o.md".to_vec())
    );
    assert_eq!(resolve_out_arg(&vec![b"--out".to_vec()]), OutChoice::MissingOutPath);
    assert_eq!(resolve_out_arg(&vec![b"-o".to_vec()]), OutChoice::MissingOutPath);
    assert_eq!(
        resolve_out_arg(&vec![b"direct.md".to_vec()]),
        OutChoice::Chosen(b"direct.md".to_vec())
    );
}

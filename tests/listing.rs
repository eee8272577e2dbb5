use to_ai::order::{path_less_eq, same_path, sort_paths};
use to_ai::render::{format_block, render_file};

#[test]
fn code_point_order() {
    assert!(path_less_eq("README.md", "a.txt"));
    assert!(path_less_eq("a.txt", "a/b"));
    assert!(path_less_eq("a", "a/b"));
    assert!(!path_less_eq("b", "a"));
    assert!(path_less_eq("same", "same"));
    assert!(same_path("x/y", "x/y"));
    assert!(!same_path("x/y", "x/z"));
}

#[test]
fn sorting_keeps_every_path() {
    let v: Vec<String> = ["b", "a/b", "a.txt", "A", "b"].iter().map(|s| s.to_string()).collect();
    let s = sort_paths(&v);
    assert_eq!(s, vec!["A", "a.txt", "a/b", "b", "b"]);
    assert!(sort_paths(&Vec::new()).is_empty());
}

#[test]
fn block_layout() {
    assert_eq!(format_block("src/a.rs", "fn a() {}\n"), "# src/a.rs\n```\nfn a() {}\n```\n\n");
    assert_eq!(format_block("e", ""), "# e\n```\n```\n\n");
}

#[test]
fn invalid_bytes_are_replaced() {
    let r = render_file("bin.dat", &[b'o', b'k', 0xff, 0xfe, b'\n']);
    assert_eq!(r, "# bin.dat\n```\nok\u{FFFD}\u{FFFD}\n```\n\n");
    let plain = render_file("t.txt", b"hello\n");
    assert_eq!(plain, "# t.txt\n```\nhello\n```\n\n");
}

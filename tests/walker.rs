use to_ai::pattern::{build_default_vec, has_wildcards, normalize_patterns};
use to_ai::rules::{clean_relative, output_exclusion, IgnoreRules};
use to_ai::walk::{join_path, DirEntry, EntryKind, Walker};

fn entry(name: &str, kind: EntryKind) -> DirEntry {
    DirEntry { name: name.to_string(), kind }
}

fn strings(v: &[&str]) -> Vec<String> {
    v.iter().map(|s| s.to_string()).collect()
}

fn default_tokens() -> Vec<String> {
    build_default_vec().into_iter().map(String::from).collect()
}

/// Runs a walk over an in-memory tree: each directory (by path relative to
/// the root, "" for the root) with its entries. Returns the listing and the
/// directories that were read.
fn run(tree: &[(&str, Vec<DirEntry>)], rules: IgnoreRules) -> (Vec<String>, Vec<String>) {
    let mut w = Walker::new(rules);
    let mut read = Vec::new();
    while let Some(dir) = w.next_dir() {
        let listing = tree
            .iter()
            .find(|(d, _)| *d == dir.as_str())
            .map(|(_, es)| es.clone())
            .unwrap_or_default();
        w.visit(&dir, &listing);
        read.push(dir);
    }
    (w.finish(), read)
}

fn sample_tree() -> Vec<(&'static str, Vec<DirEntry>)> {
    vec![
        (
            "",
            vec![
                entry("a.txt", EntryKind::File),
                entry("node_modules", EntryKind::Dir),
                entry("build", EntryKind::Dir),
                entry("README.md", EntryKind::File),
            ],
        ),
        ("node_modules", vec![entry("lib.js", EntryKind::File)]),
        ("build", vec![entry("out.bin", EntryKind::File)]),
    ]
}

#[test]
fn wildcard_detection() {
    assert!(has_wildcards("*.png"));
    assert!(has_wildcards("a?c"));
    assert!(has_wildcards("[ab]"));
    assert!(has_wildcards("{a,b}"));
    assert!(!has_wildcards("node_modules"));
    assert!(!has_wildcards("a/b"));
}

#[test]
fn tokens_expand_by_kind() {
    let out = normalize_patterns(&strings(&["node_modules", "*.png", "src/*.rs", "**/*.md", "a\\*"]));
    assert_eq!(
        out,
        strings(&[
            "**/node_modules/**",
            "**/node_modules",
            "**/*.png",
            "src/*.rs",
            "**/*.md",
            "a\\*",
        ])
    );
    assert!(normalize_patterns(&[]).is_empty());
}

#[test]
fn default_list() {
    let d = build_default_vec();
    assert_eq!(d.len(), 62);
    assert_eq!(d[0], "node_modules");
    assert_eq!(d[61], "Pods");
    assert!(d.contains(&"*.png"));
    assert!(d.contains(&"bazel-*"));
}

#[test]
fn default_ignores_scenario() {
    let rules = IgnoreRules::new(&default_tokens(), Vec::new()).unwrap();
    let (files, read) = run(&sample_tree(), rules);
    assert_eq!(files, strings(&["README.md", "a.txt"]));
    assert_eq!(read, strings(&[""]));
}

#[test]
fn log_token_scenario() {
    let tree = vec![
        (
            "",
            vec![
                entry("app.log", EntryKind::File),
                entry("logs", EntryKind::Dir),
                entry("notlog.txt", EntryKind::File),
            ],
        ),
        ("logs", vec![entry("app.log", EntryKind::File)]),
    ];
    let rules = IgnoreRules::new(&strings(&["*.log"]), Vec::new()).unwrap();
    let (files, read) = run(&tree, rules);
    assert_eq!(files, strings(&["notlog.txt"]));
    assert_eq!(read, strings(&["", "logs"]));
}

#[test]
fn plain_name_pruned_at_any_depth() {
    let tree = vec![
        ("", vec![entry("pkg", EntryKind::Dir), entry("keep.rs", EntryKind::File)]),
        ("pkg", vec![entry("cache", EntryKind::Dir), entry("cache.rs", EntryKind::File)]),
        ("pkg/cache", vec![entry("deep", EntryKind::Dir), entry("x.rs", EntryKind::File)]),
        ("pkg/cache/deep", vec![entry("y.rs", EntryKind::File)]),
    ];
    let rules = IgnoreRules::new(&strings(&["cache"]), Vec::new()).unwrap();
    assert!(rules.is_ignored("pkg/cache"));
    assert!(rules.is_ignored("pkg/cache/deep/y.rs"));
    assert!(rules.is_ignored("cache"));
    assert!(!rules.is_ignored("pkg/cache.rs"));
    assert!(!rules.is_ignored("mycache"));
    let (files, read) = run(&tree, rules);
    assert_eq!(files, strings(&["keep.rs", "pkg/cache.rs"]));
    assert!(!read.contains(&"pkg/cache".to_string()));
}

#[test]
fn wildcard_matches_basename_at_any_depth() {
    let rules = IgnoreRules::new(&strings(&["*.png"]), Vec::new()).unwrap();
    assert!(rules.is_ignored("assets/icon.png"));
    assert!(rules.is_ignored("icon.png"));
    assert!(rules.is_ignored("a/b/c/d.png"));
    assert!(!rules.is_ignored("assets/icon.png.txt"));
}

#[test]
fn walking_twice_gives_same_listing() {
    let rules1 = IgnoreRules::new(&default_tokens(), Vec::new()).unwrap();
    let rules2 = IgnoreRules::new(&default_tokens(), Vec::new()).unwrap();
    let (first, _) = run(&sample_tree(), rules1);
    let (second, _) = run(&sample_tree(), rules2);
    assert_eq!(first, second);
}

#[test]
fn enumeration_order_does_not_matter() {
    let forward = vec![
        ("", vec![entry("b.rs", EntryKind::File), entry("a", EntryKind::Dir), entry("c.rs", EntryKind::File)]),
        ("a", vec![entry("z.rs", EntryKind::File), entry("y.rs", EntryKind::File)]),
    ];
    let backward = vec![
        ("", vec![entry("c.rs", EntryKind::File), entry("a", EntryKind::Dir), entry("b.rs", EntryKind::File)]),
        ("a", vec![entry("y.rs", EntryKind::File), entry("z.rs", EntryKind::File)]),
    ];
    let (x, _) = run(&forward, IgnoreRules::new(&[], Vec::new()).unwrap());
    let (y, _) = run(&backward, IgnoreRules::new(&[], Vec::new()).unwrap());
    assert_eq!(x, strings(&["a/y.rs", "a/z.rs", "b.rs", "c.rs"]));
    assert_eq!(x, y);
}

#[test]
fn output_file_is_not_listed() {
    let tree = vec![
        ("", vec![entry("sub", EntryKind::Dir), entry("main.rs", EntryKind::File)]),
        ("sub", vec![entry("dir", EntryKind::Dir)]),
        ("sub/dir", vec![entry("out.md", EntryKind::File), entry("other.md", EntryKind::File)]),
    ];
    let exact = output_exclusion("/home/p", "sub/dir/out.md").unwrap();
    assert_eq!(exact, "sub/dir/out.md");
    let rules = IgnoreRules::new(&[], vec![exact]).unwrap();
    let (files, _) = run(&tree, rules);
    assert_eq!(files, strings(&["main.rs", "sub/dir/other.md"]));
}

#[test]
fn output_exclusion_absolute_paths() {
    assert_eq!(output_exclusion("/home/p", "/home/p/sub/out.md"), Some("sub/out.md".to_string()));
    assert_eq!(output_exclusion("/home/p/", "/home/p/out.md"), Some("out.md".to_string()));
    assert_eq!(output_exclusion("/home/p", "/home/pq/out.md"), None);
    assert_eq!(output_exclusion("/home/p", "/tmp/out.md"), None);
}

#[test]
fn no_defaults_keeps_everything() {
    let tree = vec![
        (
            "",
            vec![
                entry("node_modules", EntryKind::Dir),
                entry("x.png", EntryKind::File),
                entry("Cargo.lock", EntryKind::File),
                entry("link", EntryKind::Other),
            ],
        ),
        ("node_modules", vec![entry("lib.js", EntryKind::File)]),
    ];
    let rules = IgnoreRules::new(&[], Vec::new()).unwrap();
    let (files, _) = run(&tree, rules);
    assert_eq!(files, strings(&["Cargo.lock", "node_modules/lib.js", "x.png"]));
}

#[test]
fn bad_pattern_is_dropped() {
    let rules = IgnoreRules::new(&strings(&["a{b", "*.tmp"]), Vec::new()).unwrap();
    assert!(rules.is_ignored("x.tmp"));
    assert!(!rules.is_ignored("a{b"));
    assert!(!rules.is_ignored("keep.rs"));
}

#[test]
fn exact_paths_are_ignored() {
    let rules = IgnoreRules::new(&[], strings(&["out.md"])).unwrap();
    assert!(rules.is_excluded_exactly("out.md"));
    assert!(rules.is_ignored("out.md"));
    assert!(!rules.is_ignored("sub/out.md"));
}

#[test]
fn joining_paths() {
    assert_eq!(join_path("", "a.txt"), "a.txt");
    assert_eq!(join_path("src/x", "a.rs"), "src/x/a.rs");
}

#[test]
fn output_exclusion_is_cleaned() {
    assert_eq!(output_exclusion("/home/p", "./sub//dir/./out.md"), Some("sub/dir/out.md".to_string()));
    assert_eq!(output_exclusion("/home/p", "/home/p/./a//b.md"), Some("a/b.md".to_string()));
    assert_eq!(clean_relative("a/./b/"), "a/b");
    assert_eq!(clean_relative("./"), "");
    assert_eq!(clean_relative("x"), "x");
}

#[test]
fn no_tokens_always_builds() {
    let rules = IgnoreRules::new(&[], Vec::new());
    assert!(rules.is_ok());
    assert!(!rules.unwrap().is_ignored("a.txt"));
}

#[test]
fn literal_matches_whole_segments_only() {
    let rules = IgnoreRules::new(&strings(&["build"]), Vec::new()).unwrap();
    assert!(rules.is_ignored("build"));
    assert!(rules.is_ignored("src/build"));
    assert!(rules.is_ignored("build/out.bin"));
    assert!(rules.is_ignored("a/build/b/c.rs"));
    assert!(!rules.is_ignored("build.rs"));
    assert!(!rules.is_ignored("rebuild/x.rs"));
    assert!(!rules.is_ignored("src/builder.rs"));
}

#[test]
fn token_order_does_not_matter() {
    let r1 = IgnoreRules::new(&strings(&["*.log", "target", "*.png"]), Vec::new()).unwrap();
    let r2 = IgnoreRules::new(&strings(&["*.png", "*.log", "target"]), Vec::new()).unwrap();
    for p in ["a.log", "x/target/y.rs", "target", "img/a.png", "src/main.rs", "targets"] {
        assert_eq!(r1.is_ignored(p), r2.is_ignored(p));
    }
}

#[test]
fn more_tokens_skip_more() {
    let base = strings(&["target"]);
    let mut more = base.clone();
    more.push("*.md".to_string());
    let r1 = IgnoreRules::new(&base, Vec::new()).unwrap();
    let r2 = IgnoreRules::new(&more, Vec::new()).unwrap();
    assert!(r1.is_ignored("target/x") && r2.is_ignored("target/x"));
    assert!(!r1.is_ignored("README.md") && r2.is_ignored("README.md"));
    assert!(!r2.is_ignored("main.rs"));
}

#[test]
fn permuted_directory_listing_gives_same_files() {
    let a = vec![("", vec![entry("x.rs", EntryKind::File), entry("y.rs", EntryKind::File), entry("d", EntryKind::Dir)])];
    let b = vec![("", vec![entry("d", EntryKind::Dir), entry("y.rs", EntryKind::File), entry("x.rs", EntryKind::File)])];
    let (fa, _) = run(&a, IgnoreRules::new(&[], Vec::new()).unwrap());
    let (fb, _) = run(&b, IgnoreRules::new(&[], Vec::new()).unwrap());
    assert_eq!(fa, fb);
}

#[test]
fn dot_dot_has_no_file_name() {
    let rules = IgnoreRules::new(&strings(&[".."]), Vec::new()).unwrap();
    assert!(!rules.is_ignored(".."));
    assert!(!rules.is_ignored("a/.."));
}

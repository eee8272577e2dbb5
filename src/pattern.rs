//! Expansion of ignore tokens into glob patterns.

use vstd::prelude::*;
use vstd::string::*;

verus! {

/// The characters that make a token a glob rather than a plain name.
pub open spec fn spec_has_wildcards(s: Seq<char>) -> bool {
    s.contains('*') || s.contains('?') || s.contains('[') || s.contains('{')
}

pub open spec fn spec_has_separator(s: Seq<char>) -> bool {
    s.contains('/') || s.contains('\\')
}

/// `**/`: matches any run of leading directories, none included.
pub open spec fn recursive_prefix() -> Seq<char> {
    seq!['*', '*', '/']
}

/// `/**`: matches everything below a directory.
pub open spec fn recursive_suffix() -> Seq<char> {
    seq!['/', '*', '*']
}

/// The patterns that one token stands for.
pub open spec fn expand_token(t: Seq<char>) -> Seq<Seq<char>> {
    if spec_has_wildcards(t) {
        if spec_has_separator(t) || recursive_prefix().is_prefix_of(t) {
            seq![t]
        } else {
            seq![recursive_prefix() + t]
        }
    } else {
        seq![recursive_prefix() + t + recursive_suffix(), recursive_prefix() + t]
    }
}

/// The patterns that a list of tokens stands for, token by token, in order.
pub open spec fn normalized(ts: Seq<Seq<char>>) -> Seq<Seq<char>>
    decreases ts.len(),
{
    if ts.len() == 0 {
        Seq::empty()
    } else {
        normalized(ts.drop_last()) + expand_token(ts.last())
    }
}

/// The character sequences held by a sequence of strings.
pub open spec fn views(v: Seq<String>) -> Seq<Seq<char>> {
    v.map_values(|s: String| s@)
}

/// Whether `c` occurs in `s`.
pub fn contains_char(s: &str, c: char) -> (r: bool)
    ensures
        r == s@.contains(c),
{
    let n = s.unicode_len();
    let mut i: usize = 0;
    while i < n
        invariant
            n == s@.len(),
            i <= n,
            forall|j: int| 0 <= j < i ==> s@[j] != c,
        decreases n - i,
    {
        if s.get_char(i) == c {
            return true;
        }
        i = i + 1;
    }
    false
}

/// Whether the token holds one of `* ? [ {`.
pub fn has_wildcards(s: &str) -> (r: bool)
    ensures
        r == spec_has_wildcards(s@),
{
    contains_char(s, '*') || contains_char(s, '?') || contains_char(s, '[') || contains_char(s, '{')
}

/// Whether the token holds `/` or `\`.
pub fn has_separator(s: &str) -> (r: bool)
    ensures
        r == spec_has_separator(s@),
{
    contains_char(s, '/') || contains_char(s, '\\')
}

/// Whether the token already starts with `**/`.
pub fn starts_with_recursive_prefix(s: &str) -> (r: bool)
    ensures
        r == recursive_prefix().is_prefix_of(s@),
{
    let n = s.unicode_len();
    if n < 3 {
        return false;
    }
    let r = s.get_char(0) == '*' && s.get_char(1) == '*' && s.get_char(2) == '/';
    assert(r ==> s@.subrange(0, 3) =~= recursive_prefix());
    assert(recursive_prefix().is_prefix_of(s@) ==> s@.subrange(0, 3) =~= recursive_prefix()
        && s@[0] == '*' && s@[1] == '*' && s@[2] == '/');
    r
}

/// `**/` followed by `t`.
fn under_any_dir(t: &str) -> (r: String)
    ensures
        r@ == recursive_prefix() + t@,
{
    let mut r = String::from_str("**/");
    proof {
        reveal_strlit("**/");
    }
    assert(r@ =~= recursive_prefix());
    r.append(t);
    r
}

/// `**/` followed by `t` and `/**`.
fn everything_under(t: &str) -> (r: String)
    ensures
        r@ == recursive_prefix() + t@ + recursive_suffix(),
{
    let mut r = under_any_dir(t);
    r.append("/**");
    proof {
        reveal_strlit("/**");
    }
    assert("/**"@ =~= recursive_suffix());
    r
}

/// Expands ignore tokens into glob patterns. A token with a wildcard and a
/// separator, or one that starts with `**/`, is kept; one with a wildcard
/// only is prefixed with `**/`; a plain name gives `**/name/**` and
/// `**/name`.
pub fn normalize_patterns(patterns: &[String]) -> (out: Vec<String>)
    ensures
        views(out@) == normalized(views(patterns@)),
{
    let mut out: Vec<String> = Vec::new();
    let mut i: usize = 0;
    while i < patterns.len()
        invariant
            i <= patterns@.len(),
            views(out@) == normalized(views(patterns@.take(i as int))),
        decreases patterns@.len() - i,
    {
        let p = patterns[i].as_str();
        let ghost before = views(out@);
        if has_wildcards(p) {
            if has_separator(p) || starts_with_recursive_prefix(p) {
                out.push(p.to_owned());
            } else {
                out.push(under_any_dir(p));
            }
        } else {
            out.push(everything_under(p));
            out.push(under_any_dir(p));
        }
        proof {
            let ts = views(patterns@.take(i + 1));
            assert(ts.drop_last() =~= views(patterns@.take(i as int)));
            assert(ts.last() == p@);
            assert(views(out@) =~= before + expand_token(p@));
        }
        i = i + 1;
    }
    assert(patterns@.take(patterns@.len() as int) =~= patterns@);
    out
}

/// The built-in ignore tokens: build outputs, dependency and cache
/// directories, editor and VCS metadata, lockfiles, and binary, media and
/// archive extensions.
pub open spec fn default_tokens() -> Seq<Seq<char>> {
    seq![
        "node_modules"@,
        "target"@,
        "dist"@,
        "build"@,
        ".next"@,
        ".turbo"@,
        ".git"@,
        ".idea"@,
        ".vscode"@,
        ".DS_Store"@,
        "package-lock.json"@,
        "Cargo.lock"@,
        "LICENSE"@,
        "__pycache__"@,
        "*.pyc"@,
        "*.pyo"@,
        "*.pyd"@,
        "*.o"@,
        "*.obj"@,
        "*.so"@,
        "*.dylib"@,
        "*.dll"@,
        "*.exe"@,
        "*.out"@,
        "*.a"@,
        "*.lib"@,
        "*.log"@,
        "*.tmp"@,
        "*.swp"@,
        "*.png"@,
        "*.jpg"@,
        "*.jpeg"@,
        "*.gif"@,
        "*.bmp"@,
        "*.tiff"@,
        "*.ico"@,
        "*.svg"@,
        "*.webp"@,
        "*.heic"@,
        "*.heif"@,
        "*.vrm"@,
        "*.fbx"@,
        "*.glb"@,
        "*.gltf"@,
        "*.blend"@,
        "*.obj"@,
        "*.stl"@,
        "*.zip"@,
        "*.tar"@,
        "*.gz"@,
        "*.bz2"@,
        "*.xz"@,
        "*.7z"@,
        "*.rar"@,
        ".pytest_cache"@,
        ".mypy_cache"@,
        ".ruff_cache"@,
        "CMakeFiles"@,
        "cmake-build-*"@,
        "buck-out"@,
        "bazel-*"@,
        "Pods"@,
    ]
}

/// The built-in ignore tokens, in their fixed order.
pub fn build_default_vec() -> (r: Vec<&'static str>)
    ensures
        r@.map_values(|s: &str| s@) == default_tokens(),
{
    let r: Vec<&'static str> = vec![
        "node_modules",
        "target",
        "dist",
        "build",
        ".next",
        ".turbo",
        ".git",
        ".idea",
        ".vscode",
        ".DS_Store",
        "package-lock.json",
        "Cargo.lock",
        "LICENSE",
        "__pycache__",
        "*.pyc",
        "*.pyo",
        "*.pyd",
        "*.o",
        "*.obj",
        "*.so",
        "*.dylib",
        "*.dll",
        "*.exe",
        "*.out",
        "*.a",
        "*.lib",
        "*.log",
        "*.tmp",
        "*.swp",
        "*.png",
        "*.jpg",
        "*.jpeg",
        "*.gif",
        "*.bmp",
        "*.tiff",
        "*.ico",
        "*.svg",
        "*.webp",
        "*.heic",
        "*.heif",
        "*.vrm",
        "*.fbx",
        "*.glb",
        "*.gltf",
        "*.blend",
        "*.obj",
        "*.stl",
        "*.zip",
        "*.tar",
        "*.gz",
        "*.bz2",
        "*.xz",
        "*.7z",
        "*.rar",
        ".pytest_cache",
        ".mypy_cache",
        ".ruff_cache",
        "CMakeFiles",
        "cmake-build-*",
        "buck-out",
        "bazel-*",
        "Pods",
    ];
    assert(r@.map_values(|s: &str| s@) =~= default_tokens());
    r
}

} // verus!

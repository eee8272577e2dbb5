//! The glob matcher of the `globset` crate, as this library relies on it.
//!
//! A compiled set is known by the patterns it was built from; what a single
//! pattern matches is named, with the cases that globset's documentation
//! spells out (a plain name, `**/` before a segment, `/**` after a
//! directory) stated beside the name.

use globset::{Glob, GlobSet, GlobSetBuilder};
use vstd::prelude::*;

verus! {

#[verifier::external_type_specification]
#[verifier::external_body]
pub struct ExGlobSet(GlobSet);

#[verifier::external_type_specification]
#[verifier::external_body]
pub struct ExGlobSetBuilder(GlobSetBuilder);

#[verifier::external_type_specification]
#[verifier::external_body]
pub struct ExGlobError(globset::Error);

/// The patterns added to a builder, in order.
pub uninterp spec fn builder_patterns(b: GlobSetBuilder) -> Seq<Seq<char>>;

/// The patterns that a set was built from, in order.
pub uninterp spec fn set_patterns(s: GlobSet) -> Seq<Seq<char>>;

/// Whether `Glob::new` accepts a pattern.
pub uninterp spec fn glob_parses(p: Seq<char>) -> bool;

/// Whether a glob set holding the pattern, compiled with globset's default
/// options, matches a path by that pattern (whichever matching strategy the
/// set picks for it).
pub uninterp spec fn glob_match_of(p: Seq<char>, path: Seq<char>) -> bool;

/// Whether `GlobSetBuilder::build` succeeds on these patterns; it fails only
/// where the combined matcher exceeds globset's size limits.
pub uninterp spec fn set_builds(ps: Seq<Seq<char>>) -> bool;

/// The characters that globset's parser treats specially outside a class.
pub open spec fn is_glob_special(c: char) -> bool {
    c == '*' || c == '?' || c == '[' || c == '{' || c == '}' || c == ',' || c == '\\'
}

/// `.` and `..`: segments that name no file of their own.
pub open spec fn is_dot_segment(b: Seq<char>) -> bool {
    b == seq!['.'] || b == seq!['.', '.']
}

/// A non-empty path segment, neither `.` nor `..`, in which every character
/// stands for itself.
pub open spec fn is_plain_name(n: Seq<char>) -> bool {
    &&& n.len() > 0
    &&& !is_dot_segment(n)
    &&& forall|i: int| 0 <= i < n.len() ==> !is_glob_special(#[trigger] n[i]) && n[i] != '/'
}

/// `path` is `b`, or ends with `/` followed by `b`.
pub open spec fn ends_with_segment(path: Seq<char>, b: Seq<char>) -> bool {
    path == b || exists|x: Seq<char>| path == x + seq!['/'] + b
}

/// `path` holds the segment `n` with at least one more segment after it.
pub open spec fn has_inner_segment(path: Seq<char>, n: Seq<char>) -> bool {
    exists|x: Seq<char>, rest: Seq<char>|
        rest.len() > 0 && (x.len() == 0 || x.last() == '/') && path == x + n + seq!['/'] + rest
}

/// A pattern that `**/` may stand before with its documented meaning: one
/// segment (no `/`), not itself starting with `**`.
pub open spec fn is_segment_glob(w: Seq<char>) -> bool {
    !w.contains('/') && !(w.len() >= 2 && w[0] == '*' && w[1] == '*')
}

/// Patterns that globset documents as accepted: `**/`, a plain name, and
/// optionally `/**`.
pub open spec fn documented_parse(p: Seq<char>) -> bool {
    exists|n: Seq<char>|
        is_plain_name(n) && (p == seq!['*', '*', '/'] + n || p == seq!['*', '*', '/'] + n
            + seq!['/', '*', '*'])
}

/// Whether globset accepts a pattern.
pub open spec fn glob_compiles(p: Seq<char>) -> bool {
    glob_parses(p) || documented_parse(p)
}

/// The matches that globset documents: a plain name matches itself; `**/w`
/// matches a path whose last segment `w` matches, where that segment is a
/// file name (not empty, not `..`: the set's basename strategies see no
/// file name there); `**/n/**` matches everything below a directory named
/// `n`, at any depth.
pub open spec fn documented_match(p: Seq<char>, path: Seq<char>) -> bool {
    ||| (is_plain_name(p) && path == p)
    ||| (p.len() > 3 && p.take(3) == seq!['*', '*', '/'] && is_segment_glob(p.skip(3))
        && exists|b: Seq<char>|
        ends_with_segment(path, b) && b.len() > 0 && b != seq!['.', '.'] && (glob_match_of(p.skip(3), b) || (is_plain_name(p.skip(3))
            && b == p.skip(3))))
    ||| exists|n: Seq<char>|
        is_plain_name(n) && p == seq!['*', '*', '/'] + n + seq!['/', '*', '*']
            && has_inner_segment(path, n)
}

/// Whether a pattern matches a path relative to the root.
pub open spec fn glob_matches(p: Seq<char>, path: Seq<char>) -> bool {
    glob_match_of(p, path) || documented_match(p, path)
}

/// Whether some pattern of `ps` matches `path`.
pub open spec fn any_pattern_matches(ps: Seq<Seq<char>>, path: Seq<char>) -> bool {
    exists|i: int| 0 <= i < ps.len() && glob_matches(ps[i], path)
}

/// Relies on `GlobSetBuilder::new`: a builder with no patterns.
#[verifier::external_body]
pub(crate) fn new_builder() -> (b: GlobSetBuilder)
    ensures
        builder_patterns(b) == Seq::<Seq<char>>::empty(),
{
    GlobSetBuilder::new()
}

/// Relies on `Glob::new` to parse the pattern and on `GlobSetBuilder::add`
/// to append what it parsed; a pattern that does not parse is left out.
#[verifier::external_body]
pub(crate) fn add_pattern(b: &mut GlobSetBuilder, p: &str) -> (added: bool)
    ensures
        added == (glob_parses(p@) || documented_parse(p@)),
        builder_patterns(*final(b)) == if added {
            builder_patterns(*old(b)).push(p@)
        } else {
            builder_patterns(*old(b))
        },
{
    match Glob::new(p) {
        Ok(g) => {
            b.add(g);
            true
        },
        Err(_) => false,
    }
}

/// Relies on `GlobSetBuilder::build`: a set of the builder's patterns, or
/// an error when the patterns exceed the matcher's size limits, which a
/// builder with no patterns never does.
#[verifier::external_body]
pub(crate) fn build_set(b: &GlobSetBuilder) -> (r: Result<GlobSet, globset::Error>)
    ensures
        r is Ok == set_builds(builder_patterns(*b)),
        builder_patterns(*b).len() == 0 ==> r is Ok,
        r is Ok ==> set_patterns(r->Ok_0) == builder_patterns(*b),
{
    b.build()
}

/// Relies on `GlobSet::is_match`: true if any pattern of the set matches the path.
#[verifier::external_body]
pub(crate) fn set_is_match(s: &GlobSet, path: &str) -> (r: bool)
    ensures
        r == (exists|i: int|
            0 <= i < set_patterns(*s).len() && (glob_match_of(set_patterns(*s)[i], path@)
                || documented_match(set_patterns(*s)[i], path@))),
{
    s.is_match(path)
}

} // verus!

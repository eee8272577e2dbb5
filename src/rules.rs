//! Compiled ignore rules: a glob set and a list of exact paths.

use crate::globs::{
    add_pattern, any_pattern_matches, build_set, builder_patterns, ends_with_segment,
    glob_compiles, glob_match_of, glob_matches, has_inner_segment, is_plain_name,
    is_segment_glob, new_builder, set_builds, set_is_match, set_patterns,
};
use crate::order::same_path;
use crate::pattern::{
    expand_token, normalize_patterns, normalized, recursive_prefix, recursive_suffix,
    spec_has_separator, spec_has_wildcards, views,
};
use globset::GlobSet;
use vstd::prelude::*;
use vstd::string::*;

verus! {

/// The patterns of `ps` that globset accepts, in order.
pub open spec fn compiled(ps: Seq<Seq<char>>) -> Seq<Seq<char>>
    decreases ps.len(),
{
    if ps.len() == 0 {
        Seq::empty()
    } else if glob_compiles(ps.last()) {
        compiled(ps.drop_last()).push(ps.last())
    } else {
        compiled(ps.drop_last())
    }
}

proof fn lemma_normalized_contains(ts: Seq<Seq<char>>, k: int, j: int)
    requires
        0 <= k < ts.len(),
        0 <= j < expand_token(ts[k]).len(),
    ensures
        normalized(ts).contains(expand_token(ts[k])[j]),
    decreases ts.len(),
{
    let front = normalized(ts.drop_last());
    let e = expand_token(ts.last());
    assert(normalized(ts) == front + e);
    if k == ts.len() - 1 {
        assert((front + e)[front.len() + j] == e[j]);
    } else {
        lemma_normalized_contains(ts.drop_last(), k, j);
        assert(ts.drop_last()[k] == ts[k]);
        let i = choose|i: int| 0 <= i < front.len() && front[i] == expand_token(ts[k])[j];
        assert((front + e)[i] == front[i]);
    }
}

proof fn lemma_compiled_contains(ps: Seq<Seq<char>>, q: Seq<char>)
    requires
        ps.contains(q),
        glob_compiles(q),
    ensures
        compiled(ps).contains(q),
    decreases ps.len(),
{
    if ps.last() == q {
        assert(compiled(ps).last() == q);
    } else {
        let i = choose|i: int| 0 <= i < ps.len() && ps[i] == q;
        assert(ps.drop_last()[i] == q);
        lemma_compiled_contains(ps.drop_last(), q);
        let c = compiled(ps.drop_last());
        let k = choose|k: int| 0 <= k < c.len() && c[k] == q;
        if glob_compiles(ps.last()) {
            assert(c.push(ps.last())[k] == q);
        }
    }
}

proof fn lemma_pattern_in_force(tokens: Seq<Seq<char>>, t: Seq<char>, j: int, path: Seq<char>)
    requires
        tokens.contains(t),
        0 <= j < expand_token(t).len(),
        glob_compiles(expand_token(t)[j]),
        glob_matches(expand_token(t)[j], path),
    ensures
        any_pattern_matches(compiled(normalized(tokens)), path),
{
    let k = choose|k: int| 0 <= k < tokens.len() && tokens[k] == t;
    let q = expand_token(t)[j];
    lemma_normalized_contains(tokens, k, j);
    lemma_compiled_contains(normalized(tokens), q);
    let c = compiled(normalized(tokens));
    let i = choose|i: int| 0 <= i < c.len() && c[i] == q;
    assert(glob_matches(c[i], path));
}

/// A plain name given as a token skips, at any depth, every file or
/// directory of that name and everything beneath such a directory.
pub proof fn lemma_plain_token_ignored(
    tokens: Seq<Seq<char>>,
    t: Seq<char>,
    rules: IgnoreRules,
    path: Seq<char>,
)
    requires
        rules.patterns() == compiled(normalized(tokens)),
        tokens.contains(t),
        is_plain_name(t),
        ends_with_segment(path, t) || has_inner_segment(path, t),
    ensures
        rules.ignores(path),
{
    let pre = recursive_prefix();
    assert(!t.contains('*') && !t.contains('?') && !t.contains('[') && !t.contains('{')
        && !t.contains('/')) by {
        if t.contains('*') || t.contains('?') || t.contains('[') || t.contains('{') || t.contains(
            '/',
        ) {
            let i = choose|i: int|
                0 <= i < t.len() && (t[i] == '*' || t[i] == '?' || t[i] == '[' || t[i] == '{'
                    || t[i] == '/');
            assert(is_plain_name(t));
        }
    }
    assert(!spec_has_wildcards(t));
    if ends_with_segment(path, t) {
        let q = pre + t;
        assert(expand_token(t)[1] == q);
        assert(glob_compiles(q));
        assert(q.take(3) =~= pre);
        assert(q.skip(3) =~= t);
        assert(is_segment_glob(t));
        assert(glob_matches(q, path));
        lemma_pattern_in_force(tokens, t, 1, path);
    } else {
        let q = pre + t + recursive_suffix();
        assert(expand_token(t)[0] == q);
        assert(glob_compiles(q));
        assert(glob_matches(q, path));
        lemma_pattern_in_force(tokens, t, 0, path);
    }
}

/// A wildcard token of a single segment, such as `*.png`, skips at any
/// depth every path whose last segment (a file name: not empty, not `..`)
/// it matches, provided that its expansion compiles.
pub proof fn lemma_wildcard_token_ignored(
    tokens: Seq<Seq<char>>,
    t: Seq<char>,
    rules: IgnoreRules,
    path: Seq<char>,
    base: Seq<char>,
)
    requires
        rules.patterns() == compiled(normalized(tokens)),
        tokens.contains(t),
        spec_has_wildcards(t),
        !spec_has_separator(t),
        is_segment_glob(t),
        glob_compiles(recursive_prefix() + t),
        ends_with_segment(path, base),
        base.len() > 0,
        base != seq!['.', '.'],
        glob_match_of(t, base),
    ensures
        rules.ignores(path),
{
    let pre = recursive_prefix();
    if pre.is_prefix_of(t) {
        assert(t[2] == '/');
        assert(t.contains('/'));
    }
    let q = pre + t;
    assert(expand_token(t)[0] == q);
    assert(q.take(3) =~= pre);
    assert(q.skip(3) =~= t);
    assert(glob_matches(q, path));
    lemma_pattern_in_force(tokens, t, 0, path);
}

proof fn lemma_normalized_append(a: Seq<Seq<char>>, b: Seq<Seq<char>>)
    ensures
        normalized(a + b) == normalized(a) + normalized(b),
    decreases b.len(),
{
    if b.len() == 0 {
        assert(a + b =~= a);
        assert(normalized(a) + normalized(b) =~= normalized(a));
    } else {
        assert((a + b).drop_last() =~= a + b.drop_last());
        assert((a + b).last() == b.last());
        lemma_normalized_append(a, b.drop_last());
        assert(normalized(a + b) =~= normalized(a) + normalized(b));
    }
}

proof fn lemma_compiled_append(x: Seq<Seq<char>>, y: Seq<Seq<char>>)
    ensures
        compiled(x + y) == compiled(x) + compiled(y),
    decreases y.len(),
{
    if y.len() == 0 {
        assert(x + y =~= x);
        assert(compiled(x) + compiled(y) =~= compiled(x));
    } else {
        assert((x + y).drop_last() =~= x + y.drop_last());
        assert((x + y).last() == y.last());
        lemma_compiled_append(x, y.drop_last());
        assert(compiled(x + y) =~= compiled(x) + compiled(y));
    }
}

/// Adding tokens only skips more: whatever the rules from the tokens `a`
/// skip, the rules from `a` followed by `b`, with the same exact paths,
/// skip too.
pub proof fn lemma_more_tokens_skip_more(
    a: Seq<Seq<char>>,
    b: Seq<Seq<char>>,
    r1: IgnoreRules,
    r2: IgnoreRules,
    path: Seq<char>,
)
    requires
        r1.patterns() == compiled(normalized(a)),
        r2.patterns() == compiled(normalized(a + b)),
        r1.exact_paths() == r2.exact_paths(),
        r1.ignores(path),
    ensures
        r2.ignores(path),
{
    lemma_normalized_append(a, b);
    lemma_compiled_append(normalized(a), normalized(b));
    if any_pattern_matches(r1.patterns(), path) {
        let i = choose|i: int| 0 <= i < r1.patterns().len() && glob_matches(r1.patterns()[i], path);
        assert(r2.patterns()[i] == r1.patterns()[i]);
    }
}

proof fn lemma_compiled_origin(x: Seq<Seq<char>>, q: Seq<char>)
    requires
        compiled(x).contains(q),
    ensures
        x.contains(q),
        glob_compiles(q),
    decreases x.len(),
{
    let c = compiled(x);
    let i = choose|i: int| 0 <= i < c.len() && c[i] == q;
    let front = compiled(x.drop_last());
    if glob_compiles(x.last()) && i == front.len() {
        assert(x[x.len() - 1] == q);
    } else {
        assert(front[i] == q);
        lemma_compiled_origin(x.drop_last(), q);
        let k = choose|k: int| 0 <= k < x.drop_last().len() && x.drop_last()[k] == q;
        assert(x[k] == q);
    }
}

proof fn lemma_normalized_origin(ts: Seq<Seq<char>>, q: Seq<char>)
    requires
        normalized(ts).contains(q),
    ensures
        exists|k: int, j: int|
            0 <= k < ts.len() && 0 <= j < expand_token(ts[k]).len() && expand_token(ts[k])[j]
                == q,
    decreases ts.len(),
{
    let n = normalized(ts);
    let front = normalized(ts.drop_last());
    let i = choose|i: int| 0 <= i < n.len() && n[i] == q;
    if i >= front.len() {
        let k = ts.len() - 1;
        let j = i - front.len();
        assert(expand_token(ts[k])[j] == q);
    } else {
        assert(front[i] == q);
        lemma_normalized_origin(ts.drop_last(), q);
        let (k, j) = choose|k: int, j: int|
            0 <= k < ts.drop_last().len() && 0 <= j < expand_token(ts.drop_last()[k]).len()
                && expand_token(ts.drop_last()[k])[j] == q;
        assert(ts[k] == ts.drop_last()[k]);
    }
}

/// The order of the tokens does not matter: rules built from the same
/// tokens in another order, with the same exact paths, skip the same paths.
pub proof fn lemma_token_order_irrelevant(
    a: Seq<Seq<char>>,
    b: Seq<Seq<char>>,
    r1: IgnoreRules,
    r2: IgnoreRules,
    path: Seq<char>,
)
    requires
        a.to_multiset() == b.to_multiset(),
        r1.patterns() == compiled(normalized(a)),
        r2.patterns() == compiled(normalized(b)),
        r1.exact_paths() == r2.exact_paths(),
    ensures
        r1.ignores(path) == r2.ignores(path),
{
    if any_pattern_matches(r1.patterns(), path) {
        lemma_same_tokens_match(a, b, path);
    }
    if any_pattern_matches(r2.patterns(), path) {
        lemma_same_tokens_match(b, a, path);
    }
}

proof fn lemma_same_tokens_match(a: Seq<Seq<char>>, b: Seq<Seq<char>>, path: Seq<char>)
    requires
        a.to_multiset() == b.to_multiset(),
        any_pattern_matches(compiled(normalized(a)), path),
    ensures
        any_pattern_matches(compiled(normalized(b)), path),
{
    broadcast use vstd::seq_lib::group_to_multiset_ensures;

    let c = compiled(normalized(a));
    let i = choose|i: int| 0 <= i < c.len() && glob_matches(c[i], path);
    let q = c[i];
    assert(c.contains(q));
    lemma_compiled_origin(normalized(a), q);
    lemma_normalized_origin(a, q);
    let (k, j) = choose|k: int, j: int|
        0 <= k < a.len() && 0 <= j < expand_token(a[k]).len() && expand_token(a[k])[j] == q;
    let t = a[k];
    assert(a.contains(t));
    assert(b.to_multiset().count(t) > 0);
    assert(b.contains(t));
    lemma_pattern_in_force(b, t, j, path);
}

/// Compiles ignore tokens into one glob set. Each token is expanded; a
/// pattern that does not parse is dropped rather than failing the build.
pub fn build_globset(patterns: &[String]) -> (r: Result<GlobSet, globset::Error>)
    ensures
        r is Ok == set_builds(compiled(normalized(views(patterns@)))),
        patterns@.len() == 0 ==> r is Ok,
        r is Ok ==> set_patterns(r->Ok_0) == compiled(normalized(views(patterns@))),
{
    let pats = normalize_patterns(patterns);
    let mut builder = new_builder();
    let mut i: usize = 0;
    while i < pats.len()
        invariant
            i <= pats@.len(),
            builder_patterns(builder) == compiled(views(pats@.take(i as int))),
        decreases pats@.len() - i,
    {
        add_pattern(&mut builder, pats[i].as_str());
        proof {
            let ps = views(pats@.take(i + 1));
            assert(ps.drop_last() =~= views(pats@.take(i as int)));
            assert(ps.last() == pats@[i as int]@);
        }
        i = i + 1;
    }
    assert(pats@.take(pats@.len() as int) =~= pats@);
    assert(patterns@.len() == 0 ==> views(patterns@) =~= Seq::<Seq<char>>::empty());
    build_set(&builder)
}

/// The directory prefix that a path under `root` starts with.
pub open spec fn dir_prefix(root: Seq<char>) -> Seq<char> {
    if root.len() > 0 && root.last() == '/' {
        root
    } else {
        root + seq!['/']
    }
}

/// `acc` followed by the segment `seg`, unless `seg` is empty or `.`.
pub open spec fn push_segment(acc: Seq<char>, seg: Seq<char>) -> Seq<char> {
    if seg.len() == 0 || seg == seq!['.'] {
        acc
    } else if acc.len() == 0 {
        seg
    } else {
        acc + seq!['/'] + seg
    }
}

/// The rest of a path cleaned onto `acc`, with `seg` the segment begun.
pub open spec fn clean_from(s: Seq<char>, acc: Seq<char>, seg: Seq<char>) -> Seq<char>
    decreases s.len(),
{
    if s.len() == 0 {
        push_segment(acc, seg)
    } else if s[0] == '/' {
        clean_from(s.drop_first(), push_segment(acc, seg), Seq::empty())
    } else {
        clean_from(s.drop_first(), acc, seg.push(s[0]))
    }
}

/// A relative path with its empty and `.` segments dropped, as the walker
/// spells paths.
pub open spec fn clean_path(s: Seq<char>) -> Seq<char> {
    clean_from(s, Seq::empty(), Seq::empty())
}

/// The path, relative to `root`, that the output file `out` has, cleaned:
/// a relative `out` is relative to the root; an absolute one must lie under
/// the root, else the output is outside the tree and excludes nothing.
pub open spec fn output_relative(root: Seq<char>, out: Seq<char>) -> Option<Seq<char>> {
    if out.len() > 0 && out[0] == '/' {
        if dir_prefix(root).is_prefix_of(out) {
            Some(clean_path(out.skip(dir_prefix(root).len() as int)))
        } else {
            None
        }
    } else {
        Some(clean_path(out))
    }
}

fn push_segment_exec(acc: String, seg: &str) -> (r: String)
    ensures
        r@ == push_segment(acc@, seg@),
{
    let n = seg.unicode_len();
    if n == 0 || (n == 1 && seg.get_char(0) == '.') {
        assert(n == 1 && seg@[0] == '.' ==> seg@ =~= seq!['.']);
        acc
    } else if acc.as_str().unicode_len() == 0 {
        assert(seg@ != seq!['.']);
        seg.to_owned()
    } else {
        let mut r = acc;
        r.append("/");
        proof {
            reveal_strlit("/");
        }
        r.append(seg);
        r
    }
}

/// Drops the empty and `.` segments of a relative path.
pub fn clean_relative(s: &str) -> (r: String)
    ensures
        r@ == clean_path(s@),
{
    let n = s.unicode_len();
    let mut acc = String::new();
    let mut start: usize = 0;
    let mut i: usize = 0;
    assert(s@.skip(0) =~= s@);
    assert(s@.subrange(0, 0) =~= Seq::<char>::empty());
    while i < n
        invariant
            n == s@.len(),
            start <= i <= n,
            clean_path(s@) == clean_from(s@.skip(i as int), acc@, s@.subrange(start as int, i as int)),
        decreases n - i,
    {
        assert(s@.skip(i as int).drop_first() =~= s@.skip(i + 1));
        assert(s@.skip(i as int)[0] == s@[i as int]);
        if s.get_char(i) == '/' {
            let seg = s.substring_char(start, i);
            acc = push_segment_exec(acc, seg);
            start = i + 1;
            assert(s@.subrange(start as int, i + 1) =~= Seq::<char>::empty());
        } else {
            assert(s@.subrange(start as int, i + 1) =~= s@.subrange(start as int, i as int).push(
                s@[i as int],
            ));
        }
        i = i + 1;
    }
    let seg = s.substring_char(start, n);
    push_segment_exec(acc, seg)
}

/// Whether `pre` is a prefix of `s`.
fn starts_with(s: &str, pre: &str) -> (r: bool)
    ensures
        r == pre@.is_prefix_of(s@),
{
    let n = s.unicode_len();
    let m = pre.unicode_len();
    if m > n {
        return false;
    }
    let mut i: usize = 0;
    while i < m
        invariant
            m == pre@.len(),
            n == s@.len(),
            m <= n,
            i <= m,
            forall|j: int| 0 <= j < i ==> pre@[j] == s@[j],
        decreases m - i,
    {
        if pre.get_char(i) != s.get_char(i) {
            return false;
        }
        i = i + 1;
    }
    assert(pre@ =~= s@.take(m as int));
    true
}

/// The exact exclusion that keeps the output file `out` out of the listing
/// of `root`, both as given on the command line with `root` absolute.
pub fn output_exclusion(root: &str, out: &str) -> (r: Option<String>)
    ensures
        r matches Some(x) ==> output_relative(root@, out@) == Some(x@),
        r is None ==> output_relative(root@, out@) is None,
{
    let n = out.unicode_len();
    if n > 0 && out.get_char(0) == '/' {
        let mut pre = root.to_owned();
        let k = root.unicode_len();
        if !(k > 0 && root.get_char(k - 1) == '/') {
            pre.append("/");
            proof {
                reveal_strlit("/");
            }
        }
        assert(pre@ == dir_prefix(root@));
        if starts_with(out, pre.as_str()) {
            let m = pre.as_str().unicode_len();
            let rest = out.substring_char(m, n);
            assert(rest@ =~= out@.skip(m as int));
            Some(clean_relative(rest))
        } else {
            None
        }
    } else {
        Some(clean_relative(out))
    }
}

/// The glob set could not be built from the patterns that parsed.
#[derive(Debug, Clone, Copy, PartialEq, Eq)]
pub enum RulesError {
    PatternSet,
}

/// What is skipped during a walk: paths that some pattern matches, and
/// paths listed exactly.
pub struct IgnoreRules {
    globs: GlobSet,
    exact: Vec<String>,
}

impl IgnoreRules {
    /// The patterns in force.
    pub closed spec fn patterns(&self) -> Seq<Seq<char>> {
        set_patterns(self.globs)
    }

    /// The paths skipped whatever the patterns say.
    pub closed spec fn exact_paths(&self) -> Seq<Seq<char>> {
        views(self.exact@)
    }

    /// Whether the path relative to the root is skipped.
    pub open spec fn ignores(&self, rel: Seq<char>) -> bool {
        self.exact_paths().contains(rel) || any_pattern_matches(self.patterns(), rel)
    }

    /// Rules from ignore tokens and exact paths.
    pub fn new(tokens: &[String], exact: Vec<String>) -> (r: Result<IgnoreRules, RulesError>)
        ensures
            r is Ok == set_builds(compiled(normalized(views(tokens@)))),
            tokens@.len() == 0 ==> r is Ok,
            r is Ok ==> r->Ok_0.patterns() == compiled(normalized(views(tokens@)))
                && r->Ok_0.exact_paths() == views(exact@),
    {
        match build_globset(tokens) {
            Ok(globs) => Ok(IgnoreRules { globs, exact }),
            Err(_) => Err(RulesError::PatternSet),
        }
    }

    /// Whether `rel` is listed exactly.
    pub fn is_excluded_exactly(&self, rel: &str) -> (r: bool)
        ensures
            r == self.exact_paths().contains(rel@),
    {
        let mut i: usize = 0;
        while i < self.exact.len()
            invariant
                i <= self.exact@.len(),
                forall|j: int| 0 <= j < i ==> self.exact@[j]@ != rel@,
            decreases self.exact@.len() - i,
        {
            if same_path(self.exact[i].as_str(), rel) {
                assert(self.exact_paths()[i as int] == rel@);
                return true;
            }
            i = i + 1;
        }
        false
    }

    /// Whether the path relative to the root is skipped. The exact list is
    /// consulted first, so that an exact hit costs no pattern matching.
    pub fn is_ignored(&self, rel: &str) -> (r: bool)
        ensures
            r == self.ignores(rel@),
    {
        self.is_excluded_exactly(rel) || set_is_match(&self.globs, rel)
    }
}

} // verus!

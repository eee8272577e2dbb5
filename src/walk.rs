//! The walker's decisions. Reading directories is left to the caller: it
//! asks for the next directory to read, hands back what the directory
//! holds, and at the end takes the sorted listing.

use crate::order::{lemma_path_order_total, path_order, sort_paths, sorted_listing};
use crate::pattern::normalized;
use crate::globs::{ends_with_segment, has_inner_segment, is_plain_name};
use crate::rules::{compiled, lemma_plain_token_ignored};
use crate::pattern::views;
use crate::rules::IgnoreRules;
use vstd::multiset::Multiset;
use vstd::prelude::*;
use vstd::string::*;

verus! {

/// What a directory entry is.
#[derive(Debug, Clone, Copy, PartialEq, Eq)]
pub enum EntryKind {
    Dir,
    File,
    /// A symlink, device, socket or fifo: never listed, never entered.
    Other,
}

/// One entry of a directory, by name.
#[derive(Debug, Clone)]
pub struct DirEntry {
    pub name: String,
    pub kind: EntryKind,
}

/// The path of `name` inside the directory `dir`, both relative to the
/// root; the root itself is the empty path.
pub open spec fn joined(dir: Seq<char>, name: Seq<char>) -> Seq<char> {
    if dir.len() == 0 {
        name
    } else {
        dir + seq!['/'] + name
    }
}

/// The paths of the entries of `es` of kind `kind` that `rules` does not
/// skip, in the order of `es`.
pub open spec fn kept(rules: IgnoreRules, dir: Seq<char>, es: Seq<DirEntry>, kind: EntryKind) -> Seq<
    Seq<char>,
>
    decreases es.len(),
{
    if es.len() == 0 {
        Seq::empty()
    } else {
        let rest = kept(rules, dir, es.drop_last(), kind);
        let p = joined(dir, es.last().name@);
        if es.last().kind == kind && !rules.ignores(p) {
            rest.push(p)
        } else {
            rest
        }
    }
}

/// The paths of the entries of `es` of kind `kind`, skipping none.
pub open spec fn all_of_kind(dir: Seq<char>, es: Seq<DirEntry>, kind: EntryKind) -> Seq<Seq<char>>
    decreases es.len(),
{
    if es.len() == 0 {
        Seq::empty()
    } else {
        let rest = all_of_kind(dir, es.drop_last(), kind);
        if es.last().kind == kind {
            rest.push(joined(dir, es.last().name@))
        } else {
            rest
        }
    }
}

/// With no ignore tokens and no exact paths nothing is skipped: every file
/// of a directory is found and every subdirectory is entered.
pub proof fn lemma_nothing_skipped(
    rules: IgnoreRules,
    dir: Seq<char>,
    es: Seq<DirEntry>,
    kind: EntryKind,
)
    requires
        rules.patterns() == compiled(normalized(Seq::empty())),
        rules.exact_paths().len() == 0,
    ensures
        kept(rules, dir, es, kind) == all_of_kind(dir, es, kind),
    decreases es.len(),
{
    assert(rules.patterns() =~= Seq::<Seq<char>>::empty());
    if es.len() > 0 {
        lemma_nothing_skipped(rules, dir, es.drop_last(), kind);
        assert(!rules.ignores(joined(dir, es.last().name@)));
    }
}

/// What one entry adds to `kept`, as a multiset.
pub open spec fn kept_one(rules: IgnoreRules, dir: Seq<char>, e: DirEntry, kind: EntryKind) -> Multiset<
    Seq<char>,
> {
    let p = joined(dir, e.name@);
    if e.kind == kind && !rules.ignores(p) {
        Multiset::singleton(p)
    } else {
        Multiset::empty()
    }
}

proof fn lemma_kept_last(rules: IgnoreRules, dir: Seq<char>, es: Seq<DirEntry>, kind: EntryKind)
    requires
        es.len() > 0,
    ensures
        kept(rules, dir, es, kind).to_multiset() == kept(
            rules,
            dir,
            es.drop_last(),
            kind,
        ).to_multiset().add(kept_one(rules, dir, es.last(), kind)),
{
    broadcast use vstd::multiset::group_multiset_axioms;

    let rest = kept(rules, dir, es.drop_last(), kind);
    let p = joined(dir, es.last().name@);
    rest.to_multiset_ensures();
    assert(kept(rules, dir, es, kind).to_multiset() =~= rest.to_multiset().add(
        kept_one(rules, dir, es.last(), kind),
    ));
}

proof fn lemma_kept_remove(
    rules: IgnoreRules,
    dir: Seq<char>,
    es: Seq<DirEntry>,
    kind: EntryKind,
    i: int,
)
    requires
        0 <= i < es.len(),
    ensures
        kept(rules, dir, es, kind).to_multiset() == kept(
            rules,
            dir,
            es.remove(i),
            kind,
        ).to_multiset().add(kept_one(rules, dir, es[i], kind)),
    decreases es.len(),
{
    broadcast use vstd::multiset::group_multiset_axioms;

    lemma_kept_last(rules, dir, es, kind);
    if i == es.len() - 1 {
        assert(es.remove(i) =~= es.drop_last());
    } else {
        let r = es.remove(i);
        assert(r.drop_last() =~= es.drop_last().remove(i));
        assert(r.last() == es.last());
        lemma_kept_remove(rules, dir, es.drop_last(), kind, i);
        lemma_kept_last(rules, dir, r, kind);
        assert(kept(rules, dir, es, kind).to_multiset() =~= kept(rules, dir, r, kind).to_multiset().add(
            kept_one(rules, dir, es[i], kind),
        ));
    }
}

/// Within one directory the order in which the entries are read does not
/// matter: the same entries in any order give the same files and the same
/// subdirectories, each as many times.
pub proof fn lemma_visit_order_independent(
    rules: IgnoreRules,
    dir: Seq<char>,
    es1: Seq<DirEntry>,
    es2: Seq<DirEntry>,
    kind: EntryKind,
)
    requires
        es1.to_multiset() == es2.to_multiset(),
    ensures
        kept(rules, dir, es1, kind).to_multiset() == kept(rules, dir, es2, kind).to_multiset(),
    decreases es1.len(),
{
    broadcast use vstd::seq_lib::group_to_multiset_ensures;

    if es1.len() == 0 {
        assert(es2.to_multiset().len() == 0);
        assert(es2.len() == 0);
        assert(es1 =~= es2);
    } else {
        let e = es1.last();
        assert(es1[es1.len() - 1] == e);
        assert(es1.contains(e));
        assert(es1.to_multiset().count(e) > 0);
        assert(es2.to_multiset().count(e) > 0);
        assert(es2.contains(e));
        let j = choose|j: int| 0 <= j < es2.len() && es2[j] == e;
        assert(es1.remove(es1.len() - 1) =~= es1.drop_last());
        assert(es1.drop_last().to_multiset() == es1.to_multiset().remove(e));
        assert(es2.remove(j).to_multiset() == es2.to_multiset().remove(e));
        lemma_visit_order_independent(rules, dir, es1.drop_last(), es2.remove(j), kind);
        lemma_kept_last(rules, dir, es1, kind);
        lemma_kept_remove(rules, dir, es2, kind, j);
    }
}

/// The path of `name` inside `dir`.
pub fn join_path(dir: &str, name: &str) -> (r: String)
    ensures
        r@ == joined(dir@, name@),
{
    let mut r = dir.to_owned();
    if dir.unicode_len() > 0 {
        r.append("/");
        proof {
            reveal_strlit("/");
        }
    }
    r.append(name);
    r
}

/// A walk in progress: the directories still to read and the files found.
pub struct Walker {
    rules: IgnoreRules,
    pending: Vec<String>,
    files: Vec<String>,
}

impl Walker {
    pub closed spec fn rules(&self) -> IgnoreRules {
        self.rules
    }

    /// Directories found and not yet read; the last is read next.
    pub closed spec fn pending(&self) -> Seq<Seq<char>> {
        views(self.pending@)
    }

    /// Files found so far, in the order found.
    pub closed spec fn found(&self) -> Seq<Seq<char>> {
        views(self.files@)
    }

    /// No file found, and no directory queued but the root, is one that the
    /// rules skip.
    pub open spec fn wf(&self) -> bool {
        &&& forall|i: int|
            0 <= i < self.found().len() ==> !self.rules().ignores(#[trigger] self.found()[i])
        &&& forall|i: int|
            0 <= i < self.pending().len() ==> #[trigger] self.pending()[i].len() == 0
                || !self.rules().ignores(self.pending()[i])
    }

    /// A plain name given as a token prunes the walk: no file or directory
    /// of that name, and nothing beneath such a directory, is ever found,
    /// listed, or queued for reading.
    pub proof fn lemma_plain_name_pruned(
        &self,
        tokens: Seq<Seq<char>>,
        t: Seq<char>,
        path: Seq<char>,
    )
        requires
            self.wf(),
            self.rules().patterns() == compiled(normalized(tokens)),
            tokens.contains(t),
            is_plain_name(t),
            ends_with_segment(path, t) || has_inner_segment(path, t),
        ensures
            !self.found().contains(path),
            !self.pending().contains(path),
            !sorted_listing(self.found()).contains(path),
    {
        lemma_plain_token_ignored(tokens, t, self.rules(), path);
        if ends_with_segment(path, t) {
            if path != t {
                let x = choose|x: Seq<char>| path == x + seq!['/'] + t;
                assert(path.len() > 0);
            }
        } else {
            let (x, rest) = choose|x: Seq<char>, rest: Seq<char>|
                rest.len() > 0 && (x.len() == 0 || x.last() == '/') && path == x + t + seq!['/']
                    + rest;
            assert(path.len() > 0);
        }
        if self.pending().contains(path) {
            let j = choose|j: int| 0 <= j < self.pending().len() && self.pending()[j] == path;
        }
        self.lemma_exact_or_ignored_never_listed(path);
    }

    /// A path listed exactly, such as the output file, is never found and
    /// never listed.
    pub proof fn lemma_exact_never_listed(&self, out: Seq<char>)
        requires
            self.wf(),
            self.rules().exact_paths().contains(out),
        ensures
            !self.found().contains(out),
            !sorted_listing(self.found()).contains(out),
    {
        self.lemma_exact_or_ignored_never_listed(out);
    }

    proof fn lemma_exact_or_ignored_never_listed(&self, out: Seq<char>)
        requires
            self.wf(),
            self.rules().ignores(out),
        ensures
            !self.found().contains(out),
            !sorted_listing(self.found()).contains(out),
    {
        lemma_path_order_total();
        self.found().lemma_sort_by_ensures(path_order());
        if self.found().contains(out) {
            let j = choose|j: int| 0 <= j < self.found().len() && self.found()[j] == out;
        }
    }

    /// A walk that starts at the root, the empty path.
    pub fn new(rules: IgnoreRules) -> (w: Walker)
        ensures
            w.rules() == rules,
            w.pending() == seq![Seq::<char>::empty()],
            w.found() == Seq::<Seq<char>>::empty(),
            w.wf(),
    {
        let mut pending: Vec<String> = Vec::new();
        pending.push(String::new());
        let w = Walker { rules, pending, files: Vec::new() };
        assert(w.pending() =~= seq![Seq::<char>::empty()]);
        assert(w.found() =~= Seq::<Seq<char>>::empty());
        w
    }

    /// The next directory to read, taken off the pending list; `None` when
    /// the walk is complete.
    pub fn next_dir(&mut self) -> (r: Option<String>)
        ensures
            final(self).rules() == old(self).rules(),
            final(self).found() == old(self).found(),
            old(self).wf() ==> final(self).wf(),
            old(self).pending().len() == 0 ==> r is None && final(self).pending() == old(
                self,
            ).pending(),
            old(self).pending().len() > 0 ==> r is Some && r->Some_0@ == old(self).pending().last()
                && final(self).pending() == old(self).pending().drop_last(),
    {
        let r = self.pending.pop();
        assert(self.pending() =~= old(self).pending().take(self.pending@.len() as int));
        r
    }

    /// Takes in the entries of the directory `dir`: each file that the rules
    /// do not skip is found, and each directory that they do not skip is
    /// put on the pending list. A skipped directory is never entered.
    pub fn visit(&mut self, dir: &str, entries: &[DirEntry])
        ensures
            old(self).wf() ==> final(self).wf(),
            final(self).rules() == old(self).rules(),
            final(self).found() == old(self).found() + kept(
                old(self).rules(),
                dir@,
                entries@,
                EntryKind::File,
            ),
            final(self).pending() == old(self).pending() + kept(
                old(self).rules(),
                dir@,
                entries@,
                EntryKind::Dir,
            ),
    {
        let mut i: usize = 0;
        while i < entries.len()
            invariant
                i <= entries@.len(),
                old(self).wf() ==> self.wf(),
                self.rules() == old(self).rules(),
                self.found() == old(self).found() + kept(
                    self.rules(),
                    dir@,
                    entries@.take(i as int),
                    EntryKind::File,
                ),
                self.pending() == old(self).pending() + kept(
                    self.rules(),
                    dir@,
                    entries@.take(i as int),
                    EntryKind::Dir,
                ),
            decreases entries@.len() - i,
        {
            let e = &entries[i];
            let rel = join_path(dir, e.name.as_str());
            proof {
                let es = entries@.take(i + 1);
                assert(es.drop_last() =~= entries@.take(i as int));
                assert(es.last() == entries@[i as int]);
                assert(kept(self.rules(), dir@, es, EntryKind::File) == if e.kind == EntryKind::File
                    && !self.rules().ignores(rel@) {
                    kept(self.rules(), dir@, entries@.take(i as int), EntryKind::File).push(rel@)
                } else {
                    kept(self.rules(), dir@, entries@.take(i as int), EntryKind::File)
                });
                assert(kept(self.rules(), dir@, es, EntryKind::Dir) == if e.kind == EntryKind::Dir
                    && !self.rules().ignores(rel@) {
                    kept(self.rules(), dir@, entries@.take(i as int), EntryKind::Dir).push(rel@)
                } else {
                    kept(self.rules(), dir@, entries@.take(i as int), EntryKind::Dir)
                });
            }
            let ghost f0 = self.found();
            let ghost p0 = self.pending();
            let ghost rv = rel@;
            if !self.rules.is_ignored(rel.as_str()) {
                match e.kind {
                    EntryKind::Dir => {
                        self.pending.push(rel);
                        assert(self.pending() =~= p0.push(rv));
                    },
                    EntryKind::File => {
                        self.files.push(rel);
                        assert(self.found() =~= f0.push(rv));
                    },
                    EntryKind::Other => {},
                }
            }
            assert(self.found() =~= old(self).found() + kept(
                self.rules(),
                dir@,
                entries@.take(i + 1),
                EntryKind::File,
            ));
            assert(self.pending() =~= old(self).pending() + kept(
                self.rules(),
                dir@,
                entries@.take(i + 1),
                EntryKind::Dir,
            ));
            i = i + 1;
        }
        assert(entries@.take(entries@.len() as int) =~= entries@);
    }

    /// The files found, sorted by path; none is one that the rules skip.
    pub fn finish(&self) -> (r: Vec<String>)
        ensures
            views(r@) == sorted_listing(self.found()),
            self.wf() ==> forall|i: int|
                0 <= i < r@.len() ==> !self.rules().ignores(#[trigger] r@[i]@),
    {
        let r = sort_paths(&self.files);
        proof {
            crate::order::lemma_path_order_total();
            self.found().lemma_sort_by_ensures(crate::order::path_order());
            assert forall|i: int| self.wf() && 0 <= i < r@.len() implies !self.rules().ignores(
                #[trigger] r@[i]@,
            ) by {
                assert(views(r@)[i] == r@[i]@);
                assert(views(r@).contains(r@[i]@));
                if !self.found().contains(r@[i]@) {
                } else {
                    let j = choose|j: int| 0 <= j < self.found().len() && self.found()[j] == r@[i]@;
                }
            }
        }
        r
    }
}

} // verus!

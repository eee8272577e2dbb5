//! The order of the listing: code point by code point, a prefix first.

use crate::pattern::views;
use vstd::prelude::*;
use vstd::relations::*;
use vstd::seq_lib::*;

verus! {

/// Lexicographic order on paths by code point; a prefix comes first.
pub open spec fn path_le(a: Seq<char>, b: Seq<char>) -> bool
    decreases a.len(),
{
    if a.len() == 0 {
        true
    } else if b.len() == 0 {
        false
    } else if a[0] != b[0] {
        a[0] < b[0]
    } else {
        path_le(a.drop_first(), b.drop_first())
    }
}

pub open spec fn path_order() -> spec_fn(Seq<char>, Seq<char>) -> bool {
    |a: Seq<char>, b: Seq<char>| path_le(a, b)
}

/// The paths of `s`, sorted by `path_le`.
pub open spec fn sorted_listing(s: Seq<Seq<char>>) -> Seq<Seq<char>> {
    s.sort_by(path_order())
}

proof fn lemma_path_le_reflexive(a: Seq<char>)
    ensures
        path_le(a, a),
    decreases a.len(),
{
    if a.len() > 0 {
        lemma_path_le_reflexive(a.drop_first());
    }
}

proof fn lemma_path_le_antisymmetric(a: Seq<char>, b: Seq<char>)
    requires
        path_le(a, b),
        path_le(b, a),
    ensures
        a == b,
    decreases a.len(),
{
    if a.len() > 0 && b.len() > 0 {
        lemma_path_le_antisymmetric(a.drop_first(), b.drop_first());
        assert(a =~= seq![a[0]] + a.drop_first());
        assert(b =~= seq![b[0]] + b.drop_first());
    }
}

proof fn lemma_path_le_transitive(a: Seq<char>, b: Seq<char>, c: Seq<char>)
    requires
        path_le(a, b),
        path_le(b, c),
    ensures
        path_le(a, c),
    decreases a.len(),
{
    if a.len() > 0 && b.len() > 0 && c.len() > 0 {
        if a[0] == b[0] && b[0] == c[0] {
            lemma_path_le_transitive(a.drop_first(), b.drop_first(), c.drop_first());
        }
    }
}

proof fn lemma_path_le_total(a: Seq<char>, b: Seq<char>)
    ensures
        path_le(a, b) || path_le(b, a),
    decreases a.len(),
{
    if a.len() > 0 && b.len() > 0 {
        if a[0] == b[0] {
            lemma_path_le_total(a.drop_first(), b.drop_first());
        }
    }
}

/// `path_le` is a total order.
pub proof fn lemma_path_order_total()
    ensures
        total_ordering(path_order()),
{
    assert forall|a: Seq<char>| #[trigger] path_order()(a, a) by {
        lemma_path_le_reflexive(a);
    }
    assert forall|a: Seq<char>, b: Seq<char>|
        #[trigger] path_order()(a, b) && #[trigger] path_order()(b, a) implies a == b by {
        lemma_path_le_antisymmetric(a, b);
    }
    assert forall|a: Seq<char>, b: Seq<char>, c: Seq<char>|
        #[trigger] path_order()(a, b) && #[trigger] path_order()(b, c) implies path_order()(
        a,
        c,
    ) by {
        lemma_path_le_transitive(a, b, c);
    }
    assert forall|a: Seq<char>, b: Seq<char>|
        #[trigger] path_order()(a, b) || #[trigger] path_order()(b, a) by {
        lemma_path_le_total(a, b);
    }
}

/// The listing is sorted, and it depends only on which paths were found,
/// not on the order in which they were found: two collections of the same
/// paths give the same listing.
pub proof fn lemma_listing_order_independent(a: Seq<Seq<char>>, b: Seq<Seq<char>>)
    requires
        a.to_multiset() == b.to_multiset(),
    ensures
        sorted_by(sorted_listing(a), path_order()),
        sorted_listing(a) == sorted_listing(b),
{
    lemma_path_order_total();
    a.lemma_sort_by_ensures(path_order());
    b.lemma_sort_by_ensures(path_order());
    lemma_sorted_unique(sorted_listing(a), sorted_listing(b), path_order());
}

/// Listing again what a listing produced gives the same listing.
pub proof fn lemma_listing_idempotent(a: Seq<Seq<char>>)
    ensures
        sorted_listing(sorted_listing(a)) == sorted_listing(a),
{
    lemma_path_order_total();
    let s = sorted_listing(a);
    a.lemma_sort_by_ensures(path_order());
    s.lemma_sort_by_ensures(path_order());
    lemma_sorted_unique(sorted_listing(s), s, path_order());
}

/// Whether `a` comes no later than `b` in the listing.
pub fn path_less_eq(a: &str, b: &str) -> (r: bool)
    ensures
        r == path_le(a@, b@),
{
    let na = a.unicode_len();
    let nb = b.unicode_len();
    let mut i: usize = 0;
    assert(a@.skip(0) =~= a@ && b@.skip(0) =~= b@);
    while i < na && i < nb
        invariant
            na == a@.len(),
            nb == b@.len(),
            i <= na,
            i <= nb,
            path_le(a@, b@) == path_le(a@.skip(i as int), b@.skip(i as int)),
        decreases na - i,
    {
        let ca = a.get_char(i);
        let cb = b.get_char(i);
        assert(a@.skip(i as int)[0] == ca && b@.skip(i as int)[0] == cb);
        if ca != cb {
            return ca < cb;
        }
        assert(a@.skip(i as int).drop_first() =~= a@.skip(i + 1));
        assert(b@.skip(i as int).drop_first() =~= b@.skip(i + 1));
        i = i + 1;
    }
    i == na
}

/// Whether two paths are the same.
pub fn same_path(a: &str, b: &str) -> (r: bool)
    ensures
        r == (a@ == b@),
{
    let r = path_less_eq(a, b) && path_less_eq(b, a);
    proof {
        if r {
            lemma_path_le_antisymmetric(a@, b@);
        } else {
            lemma_path_le_reflexive(a@);
        }
    }
    r
}

/// Sorts paths by `path_le`, duplicates kept.
pub fn sort_paths(v: &Vec<String>) -> (r: Vec<String>)
    ensures
        views(r@) == sorted_listing(views(v@)),
{
    broadcast use group_to_multiset_ensures;

    let mut r: Vec<String> = Vec::new();
    let mut i: usize = 0;
    while i < v.len()
        invariant
            i <= v@.len(),
            sorted_by(views(r@), path_order()),
            views(r@).to_multiset() == views(v@.take(i as int)).to_multiset(),
        decreases v@.len() - i,
    {
        let x = v[i].clone();
        let mut k: usize = 0;
        while k < r.len() && path_less_eq(r[k].as_str(), x.as_str())
            invariant
                k <= r@.len(),
                forall|j: int| 0 <= j < k ==> path_le(#[trigger] r@[j]@, x@),
            decreases r@.len() - k,
        {
            k = k + 1;
        }
        let ghost old_r = views(r@);
        r.insert(k, x);
        proof {
            lemma_path_order_total();
            let nr = views(r@);
            assert(nr =~= old_r.insert(k as int, x@));
            assert forall|a: int, b: int| 0 <= a < b < nr.len() implies #[trigger] path_order()(
                nr[a],
                nr[b],
            ) by {
                if b == k {
                } else if a == k {
                    lemma_path_le_total(x@, old_r[k as int]);
                    if b > k + 1 {
                        assert(path_order()(old_r[k as int], old_r[b - 1]));
                        lemma_path_le_transitive(x@, old_r[k as int], old_r[b - 1]);
                    }
                } else if a < k && b > k {
                    lemma_path_le_total(x@, old_r[a]);
                } else {
                }
            }
            to_multiset_insert(old_r, k as int, x@);
            assert(views(v@.take(i + 1)) =~= views(v@.take(i as int)).push(x@));
            views(v@.take(i as int)).to_multiset_ensures();
            assert(views(v@.take(i as int)).push(x@).to_multiset() =~= views(
                v@.take(i as int),
            ).to_multiset().insert(x@));
            assert(nr.to_multiset() =~= old_r.to_multiset().insert(x@));
        }
        i = i + 1;
    }
    proof {
        assert(v@.take(v@.len() as int) =~= v@);
        lemma_path_order_total();
        views(v@).lemma_sort_by_ensures(path_order());
        lemma_sorted_unique(views(r@), sorted_listing(views(v@)), path_order());
    }
    r
}

} // verus!

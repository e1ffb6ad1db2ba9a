//! Facts about sequences: counting the elements that satisfy a predicate, and the
//! uniqueness of strictly ordered listings.
use vstd::prelude::*;

verus! {

/// How many elements of `s` satisfy `pred`.
pub open spec fn count_where<A>(s: Seq<A>, pred: spec_fn(A) -> bool) -> nat
    decreases s.len(),
{
    if s.len() == 0 {
        0
    } else {
        count_where(s.drop_last(), pred) + if pred(s.last()) {
            1nat
        } else {
            0nat
        }
    }
}

/// Removing one element removes its own contribution to the count.
pub proof fn lemma_count_where_remove<A>(s: Seq<A>, pred: spec_fn(A) -> bool, j: int)
    requires
        0 <= j < s.len(),
    ensures
        count_where(s, pred) == count_where(s.remove(j), pred) + if pred(s[j]) {
            1nat
        } else {
            0nat
        },
    decreases s.len(),
{
    if j == s.len() - 1 {
        assert(s.remove(j) =~= s.drop_last());
    } else {
        assert(s.remove(j).drop_last() =~= s.drop_last().remove(j));
        assert(s.remove(j).last() == s.last());
        lemma_count_where_remove(s.drop_last(), pred, j);
        assert(s.drop_last()[j] == s[j]);
    }
}

/// The count does not depend on the order of the elements.
pub proof fn lemma_count_where_ignores_order<A>(s: Seq<A>, t: Seq<A>, pred: spec_fn(A) -> bool)
    requires
        s.to_multiset() == t.to_multiset(),
    ensures
        s.len() == t.len(),
        count_where(s, pred) == count_where(t, pred),
    decreases s.len(),
{
    broadcast use vstd::seq_lib::group_to_multiset_ensures, vstd::multiset::group_multiset_axioms;

    s.to_multiset_ensures();
    t.to_multiset_ensures();
    if s.len() > 0 {
        let x = s.last();
        let rest = s.drop_last();
        assert(s =~= rest.push(x));
        rest.to_multiset_ensures();
        assert(s.to_multiset() =~= rest.to_multiset().insert(x));
        assert(s[s.len() - 1] == x);
        assert(s.contains(x));
        assert(s.to_multiset().count(x) > 0);
        assert(t.to_multiset().count(x) > 0);
        assert(t.contains(x));
        let j = choose|j: int| 0 <= j < t.len() && t[j] == x;
        let t_rest = t.remove(j);
        assert(t_rest.to_multiset() =~= t.to_multiset().remove(x));
        assert(t_rest.to_multiset() =~= rest.to_multiset());
        lemma_count_where_ignores_order(rest, t_rest, pred);
        lemma_count_where_remove(t, pred, j);
    }
}

/// At least one element satisfies `pred` exactly when the count is positive.
pub proof fn lemma_count_where_positive<A>(s: Seq<A>, pred: spec_fn(A) -> bool)
    ensures
        count_where(s, pred) >= 1 <==> exists|i: int| 0 <= i < s.len() && #[trigger] pred(s[i]),
    decreases s.len(),
{
    if s.len() > 0 {
        let rest = s.drop_last();
        lemma_count_where_positive(rest, pred);
        if exists|i: int| 0 <= i < rest.len() && #[trigger] pred(rest[i]) {
            let i = choose|i: int| 0 <= i < rest.len() && #[trigger] pred(rest[i]);
            assert(pred(s[i]));
        }
        if exists|i: int| 0 <= i < s.len() && #[trigger] pred(s[i]) {
            let i = choose|i: int| 0 <= i < s.len() && #[trigger] pred(s[i]);
            if i < s.len() - 1 {
                assert(pred(rest[i]));
            }
        }
    }
}

/// At least two elements satisfy `pred` exactly when the count is at least two.
pub proof fn lemma_count_where_two<A>(s: Seq<A>, pred: spec_fn(A) -> bool)
    ensures
        count_where(s, pred) >= 2 <==> exists|i: int, j: int|
            0 <= i < j < s.len() && #[trigger] pred(s[i]) && #[trigger] pred(s[j]),
    decreases s.len(),
{
    if s.len() > 0 {
        let rest = s.drop_last();
        let last = s.len() - 1;
        lemma_count_where_two(rest, pred);
        lemma_count_where_positive(rest, pred);
        if count_where(s, pred) >= 2 {
            if pred(s.last()) {
                let i = choose|i: int| 0 <= i < rest.len() && #[trigger] pred(rest[i]);
                assert(pred(s[i]) && pred(s[last]));
            } else {
                let (i, j) = choose|i: int, j: int|
                    0 <= i < j < rest.len() && #[trigger] pred(rest[i]) && #[trigger] pred(rest[j]);
                assert(pred(s[i]) && pred(s[j]));
            }
        }
        if exists|i: int, j: int| 0 <= i < j < s.len() && #[trigger] pred(s[i]) && #[trigger] pred(s[j]) {
            let (i, j) = choose|i: int, j: int|
                0 <= i < j < s.len() && #[trigger] pred(s[i]) && #[trigger] pred(s[j]);
            assert(pred(rest[i]));
            if j < last {
                assert(pred(rest[j]));
            }
        }
    }
}

/// Every element comes before each later one.
pub open spec fn strictly_ordered<A>(s: Seq<A>, before: spec_fn(A, A) -> bool) -> bool {
    forall|k: int, l: int| 0 <= k < l < s.len() ==> before(#[trigger] s[k], #[trigger] s[l])
}

/// Two listings of the same elements, each strictly ordered by the same asymmetric
/// relation, are equal.
pub proof fn lemma_ordered_listing_unique<A>(a: Seq<A>, b: Seq<A>, before: spec_fn(A, A) -> bool)
    requires
        forall|x: A, y: A| #[trigger] before(x, y) ==> !before(y, x),
        strictly_ordered(a, before),
        strictly_ordered(b, before),
        forall|x: A| #[trigger] a.contains(x) <==> b.contains(x),
    ensures
        a == b,
    decreases a.len(),
{
    if a.len() == 0 {
        if b.len() > 0 {
            assert(b.contains(b[0]));
            assert(a.contains(b[0]));
        }
        assert(a =~= b);
    } else if b.len() == 0 {
        assert(a.contains(a[0]));
        assert(b.contains(a[0]));
    } else {
        // both start with their first element in the order
        assert(a.contains(a[0]));
        assert(b.contains(b[0]));
        assert(a.contains(b[0]));
        assert(b.contains(a[0]));
        let i = choose|i: int| 0 <= i < a.len() && a[i] == b[0];
        let j = choose|j: int| 0 <= j < b.len() && b[j] == a[0];
        if i > 0 {
            assert(before(a[0], a[i]));
        }
        if j > 0 {
            assert(before(b[0], b[j]));
        }
        assert(a[0] == b[0]);
        let a1 = a.drop_first();
        let b1 = b.drop_first();
        assert forall|x: A| #[trigger] a1.contains(x) <==> b1.contains(x) by {
            if a1.contains(x) {
                let k = choose|k: int| 0 <= k < a1.len() && a1[k] == x;
                assert(a[k + 1] == x);
                assert(a.contains(x));
                assert(b.contains(x));
                let l = choose|l: int| 0 <= l < b.len() && b[l] == x;
                assert(before(a[0], a[k + 1]));
                assert(l != 0);
                assert(b1[l - 1] == x);
            }
            if b1.contains(x) {
                let k = choose|k: int| 0 <= k < b1.len() && b1[k] == x;
                assert(b[k + 1] == x);
                assert(b.contains(x));
                assert(a.contains(x));
                let l = choose|l: int| 0 <= l < a.len() && a[l] == x;
                assert(before(b[0], b[k + 1]));
                assert(l != 0);
                assert(a1[l - 1] == x);
            }
        }
        assert forall|k: int, l: int| 0 <= k < l < a1.len() implies before(#[trigger] a1[k], #[trigger] a1[l]) by {
            assert(before(a[k + 1], a[l + 1]));
        }
        assert forall|k: int, l: int| 0 <= k < l < b1.len() implies before(#[trigger] b1[k], #[trigger] b1[l]) by {
            assert(before(b[k + 1], b[l + 1]));
        }
        lemma_ordered_listing_unique(a1, b1, before);
        assert forall|k: int| 0 <= k < a.len() implies a[k] == b[k] by {
            if k > 0 {
                assert(a[k] == a1[k - 1]);
                assert(b[k] == b1[k - 1]);
            }
        }
        assert(a =~= b);
    }
}

} // verus!

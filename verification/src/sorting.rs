//! Stable insertion order: the order that a stable sort gives, stated as
//! repeated insertion, with its laws.

use vstd::prelude::*;
use vstd::relations::sorted_by;

verus! {

broadcast use vstd::seq_lib::group_to_multiset_ensures;

/// The number of leading elements of `s` that may stand before `x`.
pub open spec fn insert_pos<A>(s: Seq<A>, x: A, before: spec_fn(A, A) -> bool) -> nat
    decreases s.len(),
{
    if s.len() > 0 && before(s[0], x) {
        1 + insert_pos(s.drop_first(), x, before)
    } else {
        0
    }
}

/// `s` stably sorted by `before`: each element, in order, is inserted after
/// the leading run of already placed elements that may stand before it.
/// Elements that may stand before each other keep their relative order.
pub open spec fn stable_sorted<A>(s: Seq<A>, before: spec_fn(A, A) -> bool) -> Seq<A>
    decreases s.len(),
{
    if s.len() == 0 {
        s
    } else {
        let t = stable_sorted(s.drop_last(), before);
        t.insert(insert_pos(t, s.last(), before) as int, s.last())
    }
}

/// Whether `before` is a total preorder: total and transitive.
pub open spec fn total_preorder<A>(before: spec_fn(A, A) -> bool) -> bool {
    &&& forall|a: A, b: A| #[trigger] before(a, b) || before(b, a)
    &&& forall|a: A, b: A, c: A| #[trigger] before(a, b) && #[trigger] before(b, c) ==> before(a, c)
}

proof fn lemma_insert_pos_facts<A>(s: Seq<A>, x: A, before: spec_fn(A, A) -> bool)
    ensures
        insert_pos(s, x, before) <= s.len(),
        forall|m: int| 0 <= m < insert_pos(s, x, before) ==> before(#[trigger] s[m], x),
        insert_pos(s, x, before) < s.len() ==> !before(s[insert_pos(s, x, before) as int], x),
    decreases s.len(),
{
    if s.len() > 0 && before(s[0], x) {
        let t = s.drop_first();
        lemma_insert_pos_facts(t, x, before);
        assert forall|m: int| 0 <= m < insert_pos(s, x, before) implies before(#[trigger] s[m], x) by {
            if m > 0 {
                assert(s[m] == t[m - 1]);
            }
        }
        if insert_pos(s, x, before) < s.len() {
            assert(s[insert_pos(s, x, before) as int] == t[insert_pos(t, x, before) as int]);
        }
    }
}

/// A stable sort rearranges its input: it holds the same elements, each as
/// often.
pub proof fn lemma_stable_sorted_permutes<A>(s: Seq<A>, before: spec_fn(A, A) -> bool)
    ensures
        stable_sorted(s, before).to_multiset() == s.to_multiset(),
        stable_sorted(s, before).len() == s.len(),
    decreases s.len(),
{
    if s.len() > 0 {
        let t = stable_sorted(s.drop_last(), before);
        lemma_stable_sorted_permutes(s.drop_last(), before);
        lemma_insert_pos_facts(t, s.last(), before);
        vstd::seq_lib::to_multiset_insert(t, insert_pos(t, s.last(), before) as int, s.last());
        vstd::seq_lib::to_multiset_build(s.drop_last(), s.last());
        assert(s.drop_last().push(s.last()) =~= s);
    }
}

/// Under a total preorder, the stable sort puts every element before each
/// later one.
pub proof fn lemma_stable_sorted_in_order<A>(s: Seq<A>, before: spec_fn(A, A) -> bool)
    requires
        total_preorder(before),
    ensures
        sorted_by(stable_sorted(s, before), before),
    decreases s.len(),
{
    if s.len() > 0 {
        let x = s.last();
        let t = stable_sorted(s.drop_last(), before);
        lemma_stable_sorted_in_order(s.drop_last(), before);
        lemma_insert_pos_facts(t, x, before);
        let p = insert_pos(t, x, before) as int;
        let r = t.insert(p, x);
        assert forall|i: int, j: int| 0 <= i < j < r.len() implies before(r[i], r[j]) by {
            if j < p {
                assert(r[i] == t[i] && r[j] == t[j]);
            } else if j == p {
                assert(r[i] == t[i]);
            } else if i < p {
                assert(r[i] == t[i] && r[j] == t[j - 1]);
                assert(before(t[i], x));
                assert(before(x, t[p]));
                assert(before(t[p], t[j - 1]) || p == j - 1);
            } else if i == p {
                assert(r[j] == t[j - 1]);
                assert(before(x, t[p]));
                assert(before(t[p], t[j - 1]) || p == j - 1);
            } else {
                assert(r[i] == t[i - 1] && r[j] == t[j - 1]);
            }
        }
    }
}

} // verus!

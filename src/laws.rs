use vstd::prelude::*;

use crate::allocate::{claimed, lemma_union_of_contains};
use crate::canonical::{
    canonical, lemma_canonical_unique, lemma_ranges_set_covers, lemma_ranges_set_single,
    ranges_set, total,
};
use crate::range::CharRange;

verus! {

/// Inserting the same multiset of ranges in any order gives the same list:
/// two canonical lists that cover the union of equal multisets of ranges are
/// identical.
pub proof fn law_permutation_invariance(
    items1: Seq<CharRange>,
    items2: Seq<CharRange>,
    list1: Seq<CharRange>,
    list2: Seq<CharRange>,
)
    requires
        items1.to_multiset() == items2.to_multiset(),
        canonical(list1),
        canonical(list2),
        ranges_set(list1) == ranges_set(items1),
        ranges_set(list2) == ranges_set(items2),
    ensures
        list1 == list2,
{
    lemma_ranges_set_covers(items1);
    lemma_ranges_set_covers(items2);
    items1.to_multiset_ensures();
    items2.to_multiset_ensures();
    assert forall|c: int| #[trigger] ranges_set(items1).contains(c) implies ranges_set(
        items2,
    ).contains(c) by {
        let i = choose|i: int| 0 <= i < items1.len() && (#[trigger] items1[i]).has(c);
        assert(items1.contains(items1[i]));
        assert(items1.to_multiset().count(items1[i]) > 0);
        assert(items2.to_multiset().count(items1[i]) > 0);
        assert(items2.contains(items1[i]));
        let j = choose|j: int| 0 <= j < items2.len() && items2[j] == items1[i];
        assert(items2[j].has(c));
    }
    assert forall|c: int| #[trigger] ranges_set(items2).contains(c) implies ranges_set(
        items1,
    ).contains(c) by {
        let i = choose|i: int| 0 <= i < items2.len() && (#[trigger] items2[i]).has(c);
        assert(items2.contains(items2[i]));
        assert(items2.to_multiset().count(items2[i]) > 0);
        assert(items1.to_multiset().count(items2[i]) > 0);
        assert(items1.contains(items2[i]));
        let j = choose|j: int| 0 <= j < items1.len() && items1[j] == items2[i];
        assert(items1[j].has(c));
    }
    assert(ranges_set(items1) =~= ranges_set(items2));
    lemma_canonical_unique(list1, list2);
}

/// Inserting `[a, b]` into an empty list gives a list that counts
/// `b - a + 1` codepoints.
pub proof fn law_cardinality(range: CharRange, list: Seq<CharRange>)
    requires
        range.wf(),
        canonical(list),
        ranges_set(list) == Set::<int>::empty().union(range.codepoints()),
    ensures
        total(list) == range.end - range.start + 1,
{
    lemma_ranges_set_single(range);
    assert(ranges_set(list) =~= ranges_set(seq![range]));
    lemma_canonical_unique(list, seq![range]);
    assert(seq![range].drop_last() =~= Seq::<CharRange>::empty());
    assert(total(seq![range].drop_last()) == 0);
}

/// Subtracting a range from the list that holds exactly that range leaves the
/// list empty.
pub proof fn law_subtract_self(range: CharRange, before: Seq<CharRange>, after: Seq<CharRange>)
    requires
        canonical(before),
        canonical(after),
        ranges_set(before) == range.codepoints(),
        ranges_set(after) == ranges_set(before).difference(range.codepoints()),
    ensures
        after.len() == 0,
{
    assert(ranges_set(after) =~= ranges_set(Seq::<CharRange>::empty()));
    lemma_canonical_unique(after, Seq::<CharRange>::empty());
}

/// Subtracting a range that shares no codepoint with the list leaves the list
/// as it was.
pub proof fn law_subtract_disjoint(range: CharRange, before: Seq<CharRange>, after: Seq<CharRange>)
    requires
        canonical(before),
        canonical(after),
        ranges_set(before).disjoint(range.codepoints()),
        ranges_set(after) == ranges_set(before).difference(range.codepoints()),
    ensures
        after == before,
{
    assert(ranges_set(after) =~= ranges_set(before));
    lemma_canonical_unique(after, before);
}

/// A codepoint ends up with some source only when some source supports it;
/// and when it lies outside the excluded set, it ends up with some source
/// whenever some source supports it.
pub proof fn law_fallback_assigned(raw: Seq<Set<int>>, excluded: Set<int>, c: int)
    ensures
        (exists|i: int| 0 <= i < raw.len() && (#[trigger] claimed(raw, i, excluded)).contains(c))
            ==> (exists|i: int| 0 <= i < raw.len() && (#[trigger] raw[i]).contains(c)),
        !excluded.contains(c) && (exists|i: int|
            0 <= i < raw.len() && (#[trigger] raw[i]).contains(c)) ==> (exists|i: int|
            0 <= i < raw.len() && (#[trigger] claimed(raw, i, excluded)).contains(c)),
    decreases raw.len(),
{
    if raw.len() > 0 {
        let d = raw.drop_last();
        let last = raw.len() - 1;
        law_fallback_assigned(d, excluded, c);
        assert forall|i: int| 0 <= i < d.len() implies #[trigger] claimed(d, i, excluded)
            == claimed(raw, i, excluded) by {
            assert(d.take(i) =~= raw.take(i));
        }
        let supported = exists|i: int| 0 <= i < raw.len() && (#[trigger] raw[i]).contains(c);
        if !excluded.contains(c) && supported {
            if exists|i: int| 0 <= i < d.len() && (#[trigger] d[i]).contains(c) {
                let i = choose|i: int|
                    0 <= i < d.len() && (#[trigger] claimed(d, i, excluded)).contains(c);
                assert(claimed(raw, i, excluded).contains(c));
            } else {
                // only the last source supports `c`, so it claims it
                assert(raw[last].contains(c)) by {
                    let i = choose|i: int| 0 <= i < raw.len() && (#[trigger] raw[i]).contains(c);
                    if i < last {
                        assert(d[i] == raw[i]);
                    }
                }
                assert(raw.take(last) =~= d);
                lemma_union_of_contains(d, c);
                assert forall|k: int| 0 <= k < d.len() implies !(#[trigger] d[k]).contains(c) by {}
                assert(claimed(raw, last, excluded).contains(c));
            }
        }
        if exists|i: int| 0 <= i < raw.len() && (#[trigger] claimed(raw, i, excluded)).contains(c) {
            let i = choose|i: int|
                0 <= i < raw.len() && (#[trigger] claimed(raw, i, excluded)).contains(c);
            assert(raw[i].contains(c));
        }
    }
}

} // verus!

use vstd::prelude::*;

use crate::range::CharRange;

verus! {

/// A sequence of ranges in canonical form: each range well formed, ordered by
/// `start`, and any two of them separated by at least one codepoint that
/// neither holds (no overlap, no adjacency).
pub open spec fn canonical(s: Seq<CharRange>) -> bool {
    &&& forall|i: int| 0 <= i < s.len() ==> (#[trigger] s[i]).wf()
    &&& forall|i: int, j: int|
        #![trigger s[i], s[j]]
        0 <= i < j < s.len() ==> s[i].end + 1 < s[j].start
}

/// The codepoints that a sequence of ranges covers.
pub open spec fn ranges_set(s: Seq<CharRange>) -> Set<int>
    decreases s.len(),
{
    if s.len() == 0 {
        Set::empty()
    } else {
        ranges_set(s.drop_last()).union(s.last().codepoints())
    }
}

/// Whether some range of `s` holds codepoint `c`.
pub open spec fn covers(s: Seq<CharRange>, c: int) -> bool {
    exists|i: int| 0 <= i < s.len() && (#[trigger] s[i]).has(c)
}

/// The sum of the widths of the ranges.
pub open spec fn total(s: Seq<CharRange>) -> int
    decreases s.len(),
{
    if s.len() == 0 {
        0
    } else {
        total(s.drop_last()) + s.last().width()
    }
}

/// The residuals of every range of `s` once `r` is taken out, in order.
pub open spec fn subtract_all(s: Seq<CharRange>, r: CharRange) -> Seq<CharRange>
    decreases s.len(),
{
    if s.len() == 0 {
        Seq::empty()
    } else {
        subtract_all(s.drop_last(), r) + s.last().residual(r)
    }
}

pub proof fn lemma_ranges_set_covers(s: Seq<CharRange>)
    ensures
        forall|c: int| #[trigger] ranges_set(s).contains(c) <==> covers(s, c),
    decreases s.len(),
{
    if s.len() > 0 {
        let d = s.drop_last();
        lemma_ranges_set_covers(d);
        assert(ranges_set(s) == ranges_set(d).union(s.last().codepoints()));
        assert forall|c: int| #[trigger] ranges_set(s).contains(c) <==> covers(s, c) by {
            assert(s.last().codepoints().contains(c) == s.last().has(c));
            if covers(s, c) {
                let i = choose|i: int| 0 <= i < s.len() && (#[trigger] s[i]).has(c);
                if i < s.len() - 1 {
                    assert(d[i] == s[i]);
                    assert(covers(d, c));
                }
            }
            if covers(d, c) {
                let i = choose|i: int| 0 <= i < d.len() && (#[trigger] d[i]).has(c);
                assert(s[i] == d[i]);
            }
            if s.last().has(c) {
                assert(s[s.len() - 1].has(c));
            }
        }
    }
}

pub proof fn lemma_ranges_set_concat(a: Seq<CharRange>, b: Seq<CharRange>)
    ensures
        ranges_set(a + b) == ranges_set(a).union(ranges_set(b)),
    decreases b.len(),
{
    if b.len() == 0 {
        assert(a + b =~= a);
        assert(ranges_set(a).union(ranges_set(b)) =~= ranges_set(a));
    } else {
        lemma_ranges_set_concat(a, b.drop_last());
        assert((a + b).drop_last() =~= a + b.drop_last());
        assert((a + b).last() == b.last());
        assert(ranges_set(a + b) =~= ranges_set(a).union(ranges_set(b)));
    }
}

pub proof fn lemma_ranges_set_single(x: CharRange)
    ensures
        ranges_set(seq![x]) == x.codepoints(),
{
    let d = seq![x].drop_last();
    assert(d =~= Seq::<CharRange>::empty());
    assert(ranges_set(d) == Set::<int>::empty());
    assert(ranges_set(seq![x]) == ranges_set(d).union(x.codepoints()));
    assert(ranges_set(seq![x]) =~= x.codepoints());
}

/// Every codepoint covered by a canonical sequence lies between the start of
/// its first range and the end of its last one.
pub proof fn lemma_canonical_bounds(s: Seq<CharRange>)
    requires
        canonical(s),
        s.len() > 0,
    ensures
        forall|c: int| #[trigger] ranges_set(s).contains(c) ==> s[0].start <= c <= s.last().end,
        forall|c: int|
            #[trigger] ranges_set(s.drop_last()).contains(c) ==> c + 1 < s.last().start,
        ranges_set(s).contains(s[0].start as int),
        ranges_set(s).contains(s.last().end as int),
{
    lemma_ranges_set_covers(s);
    lemma_ranges_set_covers(s.drop_last());
    assert forall|c: int| #[trigger] ranges_set(s).contains(c) implies s[0].start <= c
        <= s.last().end by {
        let i = choose|i: int| 0 <= i < s.len() && (#[trigger] s[i]).has(c);
        if i > 0 {
            assert(s[0].end + 1 < s[i].start);
        }
        if i < s.len() - 1 {
            assert(s[i].end + 1 < s[s.len() - 1].start);
        }
    }
    assert forall|c: int| #[trigger] ranges_set(s.drop_last()).contains(c) implies c + 1
        < s.last().start by {
        let d = s.drop_last();
        let i = choose|i: int| 0 <= i < d.len() && (#[trigger] d[i]).has(c);
        assert(s[i] == d[i]);
        assert(s[i].end + 1 < s[s.len() - 1].start);
    }
    assert(s[0].has(s[0].start as int));
    assert(s[s.len() - 1].has(s.last().end as int));
}

pub proof fn lemma_canonical_drop_last(s: Seq<CharRange>)
    requires
        canonical(s),
        s.len() > 0,
    ensures
        canonical(s.drop_last()),
{
    let d = s.drop_last();
    assert forall|i: int, j: int| #![trigger d[i], d[j]] 0 <= i < j < d.len() implies d[i].end
        + 1 < d[j].start by {
        assert(d[i] == s[i] && d[j] == s[j]);
    }
}

/// A canonical sequence is determined by the codepoints it covers.
pub proof fn lemma_canonical_unique(a: Seq<CharRange>, b: Seq<CharRange>)
    requires
        canonical(a),
        canonical(b),
        ranges_set(a) == ranges_set(b),
    ensures
        a == b,
    decreases a.len() + b.len(),
{
    if a.len() == 0 && b.len() == 0 {
        assert(a =~= b);
    } else if a.len() == 0 {
        lemma_canonical_bounds(b);
    } else if b.len() == 0 {
        lemma_canonical_bounds(a);
    } else {
        lemma_canonical_bounds(a);
        lemma_canonical_bounds(b);
        let x = a.last();
        let y = b.last();
        assert(ranges_set(a) == ranges_set(a.drop_last()).union(x.codepoints()));
        assert(ranges_set(b) == ranges_set(b.drop_last()).union(y.codepoints()));
        // the largest covered codepoint ends both last ranges
        assert(x.end == y.end);
        // a codepoint just before the later of the two starts tells them apart
        if x.start < y.start {
            let c = y.start - 1;
            assert(x.codepoints().contains(c));
            assert(ranges_set(a).contains(c));
            assert(!y.codepoints().contains(c));
            assert(!ranges_set(b.drop_last()).contains(c));
            assert(!ranges_set(b).contains(c));
        }
        if y.start < x.start {
            let c = x.start - 1;
            assert(y.codepoints().contains(c));
            assert(ranges_set(b).contains(c));
            assert(!x.codepoints().contains(c));
            assert(!ranges_set(a.drop_last()).contains(c));
            assert(!ranges_set(a).contains(c));
        }
        assert(x == y);
        lemma_canonical_drop_last(a);
        lemma_canonical_drop_last(b);
        assert(ranges_set(a.drop_last()) =~= ranges_set(b.drop_last())) by {
            assert forall|c: int| #[trigger] ranges_set(a.drop_last()).contains(c) implies ranges_set(
                b.drop_last(),
            ).contains(c) by {
                assert(ranges_set(a).contains(c));
                assert(!x.has(c));
            }
            assert forall|c: int| #[trigger] ranges_set(b.drop_last()).contains(c) implies ranges_set(
                a.drop_last(),
            ).contains(c) by {
                assert(ranges_set(b).contains(c));
                assert(!y.has(c));
            }
        }
        lemma_canonical_unique(a.drop_last(), b.drop_last());
        assert(a =~= a.drop_last().push(x));
        assert(b =~= b.drop_last().push(y));
    }
}

/// The total of a canonical sequence is at most the span from its first start
/// to its last end.
pub proof fn lemma_total_bound(s: Seq<CharRange>)
    requires
        canonical(s),
        s.len() > 0,
    ensures
        0 < total(s) <= s.last().end - s[0].start + 1,
    decreases s.len(),
{
    let d = s.drop_last();
    if d.len() > 0 {
        lemma_canonical_drop_last(s);
        lemma_total_bound(d);
        assert(d.last() == s[s.len() - 2]);
        assert(s[s.len() - 2].end + 1 < s[s.len() - 1].start);
        assert(d[0] == s[0]);
    } else {
        assert(total(d) == 0);
        assert(s.len() == 1);
    }
}

} // verus!

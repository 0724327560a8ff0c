use vstd::prelude::*;

use crate::canonical::{
    canonical, lemma_ranges_set_concat, lemma_ranges_set_covers,
    lemma_ranges_set_single, lemma_total_bound, ranges_set, subtract_all, total,
};
use crate::range::{CharRange, Counter};

verus! {

/// A set of codepoints, held as the minimal ordered list of disjoint,
/// non-adjacent inclusive ranges that covers it.
#[derive(Debug)]
pub struct CharRangeList {
    ranges: Vec<CharRange>,
}

impl View for CharRangeList {
    type V = Seq<CharRange>;

    closed spec fn view(&self) -> Seq<CharRange> {
        self.ranges@
    }
}

/// Lays `s` out as the part before `k`, the two ranges at `k` and `k + 1`, and
/// the rest, and shows that replacing those two by the range that spans them
/// keeps the codepoints covered.
proof fn lemma_merge_pair(s: Seq<CharRange>, k: int)
    requires
        0 <= k,
        k + 1 < s.len(),
        s[k].wf(),
        s[k + 1].wf(),
        s[k].touches(s[k + 1]),
    ensures
        ranges_set(s.update(k, s[k].spanning(s[k + 1])).remove(k + 1)) == ranges_set(s),
{
    let m = s[k].spanning(s[k + 1]);
    let pre = s.subrange(0, k);
    let post = s.subrange(k + 2, s.len() as int);
    assert(s =~= pre + (seq![s[k]] + seq![s[k + 1]]) + post);
    assert(s.update(k, m).remove(k + 1) =~= pre + seq![m] + post);
    s[k].lemma_spanning(s[k + 1]);
    lemma_ranges_set_concat(pre + (seq![s[k]] + seq![s[k + 1]]), post);
    lemma_ranges_set_concat(pre, seq![s[k]] + seq![s[k + 1]]);
    lemma_ranges_set_concat(seq![s[k]], seq![s[k + 1]]);
    lemma_ranges_set_concat(pre + seq![m], post);
    lemma_ranges_set_concat(pre, seq![m]);
    lemma_ranges_set_single(s[k]);
    lemma_ranges_set_single(s[k + 1]);
    lemma_ranges_set_single(m);
    assert(ranges_set(s.update(k, m).remove(k + 1)) =~= ranges_set(s));
}

proof fn lemma_insert_set(s: Seq<CharRange>, pos: int, x: CharRange)
    requires
        0 <= pos <= s.len(),
    ensures
        ranges_set(s.insert(pos, x)) == ranges_set(s).union(x.codepoints()),
{
    let pre = s.subrange(0, pos);
    let post = s.subrange(pos, s.len() as int);
    assert(s =~= pre + post);
    assert(s.insert(pos, x) =~= pre + seq![x] + post);
    lemma_ranges_set_concat(pre, post);
    lemma_ranges_set_concat(pre + seq![x], post);
    lemma_ranges_set_concat(pre, seq![x]);
    lemma_ranges_set_single(x);
    assert(ranges_set(s.insert(pos, x)) =~= ranges_set(s).union(x.codepoints()));
}

/// The residuals of one range are canonical, lie inside it, and cover what it
/// covers less the subtracted range.
proof fn lemma_residual(x: CharRange, r: CharRange)
    requires
        x.wf(),
        r.wf(),
    ensures
        canonical(x.residual(r)),
        forall|k: int|
            0 <= k < x.residual(r).len() ==> x.start <= (#[trigger] x.residual(r)[k]).start
                && x.residual(r)[k].end <= x.end,
        ranges_set(x.residual(r)) == x.codepoints().difference(r.codepoints()),
{
    let res = x.residual(r);
    if x.start > r.end || x.end < r.start {
        lemma_ranges_set_single(x);
        assert(ranges_set(res) =~= x.codepoints().difference(r.codepoints()));
    } else {
        let left: Seq<CharRange> = if x.start < r.start {
            seq![CharRange { start: x.start, end: (r.start - 1) as u32 }]
        } else {
            Seq::empty()
        };
        let right: Seq<CharRange> = if x.end > r.end {
            seq![CharRange { start: (r.end + 1) as u32, end: x.end }]
        } else {
            Seq::empty()
        };
        assert(res == left + right);
        lemma_ranges_set_concat(left, right);
        if x.start < r.start {
            lemma_ranges_set_single(left[0]);
        } else {
            assert(ranges_set(left) == Set::<int>::empty());
        }
        if x.end > r.end {
            lemma_ranges_set_single(right[0]);
        } else {
            assert(ranges_set(right) == Set::<int>::empty());
        }
        assert(ranges_set(res) =~= x.codepoints().difference(r.codepoints()));
    }
}

/// Two canonical sequences, the first ending well before the second starts,
/// join into a canonical sequence.
proof fn lemma_canonical_concat(a: Seq<CharRange>, b: Seq<CharRange>)
    requires
        canonical(a),
        canonical(b),
        a.len() > 0 && b.len() > 0 ==> a.last().end + 1 < b[0].start,
    ensures
        canonical(a + b),
{
    let s = a + b;
    assert forall|i: int, j: int| #![trigger s[i], s[j]] 0 <= i < j < s.len() implies s[i].end + 1
        < s[j].start by {
        if i < a.len() && j >= a.len() {
            let jb = j - a.len();
            if i < a.len() - 1 {
                assert(a[i].end + 1 < a[a.len() - 1].start);
            }
            if jb > 0 {
                assert(b[0].end + 1 < b[jb].start);
            }
        }
    }
    assert forall|i: int| 0 <= i < s.len() implies (#[trigger] s[i]).wf() by {
        if i >= a.len() {
            assert(b[i - a.len()].wf());
        }
    }
}

impl CharRangeList {
    #[verifier::type_invariant]
    pub open spec fn inv(self) -> bool {
        canonical(self@)
    }

    /// The codepoints of the list.
    pub open spec fn set(&self) -> Set<int> {
        ranges_set(self@)
    }

    pub fn new() -> (r: CharRangeList)
        ensures
            r@ == Seq::<CharRange>::empty(),
    {
        CharRangeList { ranges: Vec::new() }
    }

    /// The ranges, in ascending order.
    pub fn ranges(&self) -> (r: &Vec<CharRange>)
        ensures
            r@ == self@,
            canonical(self@),
    {
        proof {
            use_type_invariant(self);
        }
        &self.ranges
    }

    pub fn into_ranges(self) -> (r: Vec<CharRange>)
        ensures
            r@ == self@,
            canonical(self@),
    {
        proof {
            use_type_invariant(&self);
        }
        self.ranges
    }

    /// Inserts the codepoints of `range`, merging it with every range that it
    /// overlaps or touches. An inverted range holds no codepoint and changes
    /// nothing.
    pub fn add_range(&mut self, range: CharRange)
        ensures
            canonical(final(self)@),
            final(self).set() == old(self).set().union(range.codepoints()),
    {
        proof {
            use_type_invariant(&*self);
        }
        if range.start > range.end {
            proof {
                assert(old(self).set().union(range.codepoints()) =~= old(self).set());
            }
            return;
        }
        let pos = self.find_insert_position(&range);
        let mut ranges: Vec<CharRange> = Vec::new();
        std::mem::swap(&mut ranges, &mut self.ranges);
        let ghost before = ranges@;
        ranges.insert(pos, range);
        proof {
            lemma_insert_set(before, pos as int, range);
            let s = ranges@;
            assert forall|i: int| 0 <= i < s.len() implies (#[trigger] s[i]).wf() by {
                if i < pos {
                    assert(s[i] == before[i]);
                } else if i > pos {
                    assert(s[i] == before[i - 1]);
                }
            }
            assert forall|i: int, j: int|
                #![trigger s[i], s[j]]
                0 <= i < j < s.len() && i != pos && j != pos implies s[i].end + 1 < s[j].start by {
                let bi = if i < pos { i } else { i - 1 };
                let bj = if j < pos { j } else { j - 1 };
                assert(s[i] == before[bi] && s[j] == before[bj]);
            }
        }
        Self::merge_around(&mut ranges, pos);
        self.ranges = ranges;
    }

    /// The number of ranges whose start lies below that of `range`: where
    /// `range` goes to keep the list ordered by start.
    fn find_insert_position(&self, range: &CharRange) -> (r: usize)
        ensures
            r <= self@.len(),
            forall|j: int| 0 <= j < r ==> (#[trigger] self@[j]).start < range.start,
            forall|j: int| r <= j < self@.len() ==> (#[trigger] self@[j]).start >= range.start,
    {
        proof {
            use_type_invariant(self);
        }
        let mut lo: usize = 0;
        let mut hi: usize = self.ranges.len();
        while lo < hi
            invariant
                lo <= hi <= self@.len(),
                self@ == self.ranges@,
                canonical(self@),
                forall|j: int| 0 <= j < lo ==> (#[trigger] self@[j]).start < range.start,
                forall|j: int| hi <= j < self@.len() ==> (#[trigger] self@[j]).start >= range.start,
            decreases hi - lo,
        {
            let mid = lo + (hi - lo) / 2;
            if self.ranges[mid].start < range.start {
                proof {
                    assert forall|j: int| 0 <= j <= mid implies (#[trigger] self@[j]).start
                        < range.start by {
                        if j < mid {
                            assert(self@[j].end + 1 < self@[mid as int].start);
                        }
                    }
                }
                lo = mid + 1;
            } else {
                proof {
                    assert forall|j: int| mid <= j < self@.len() implies (#[trigger] self@[j]).start
                        >= range.start by {
                        if j > mid {
                            assert(self@[mid as int].end + 1 < self@[j].start);
                        }
                    }
                }
                hi = mid;
            }
        }
        lo
    }

    /// Merges the range at `pos` with its predecessor once, then with its
    /// successors for as long as they touch. Apart from the range at `pos`,
    /// the list must already be canonical and ordered around it.
    fn merge_around(ranges: &mut Vec<CharRange>, pos: usize)
        requires
            pos < old(ranges)@.len(),
            forall|i: int| 0 <= i < old(ranges)@.len() ==> (#[trigger] old(ranges)@[i]).wf(),
            forall|i: int, j: int|
                #![trigger old(ranges)@[i], old(ranges)@[j]]
                0 <= i < j < old(ranges)@.len() && i != pos && j != pos ==> old(ranges)@[i].end + 1
                    < old(ranges)@[j].start,
            forall|j: int| 0 <= j < pos ==> (#[trigger] old(ranges)@[j]).start < old(
                ranges,
            )@[pos as int].start,
            forall|j: int|
                pos < j < old(ranges)@.len() ==> old(ranges)@[pos as int].start <= (#[trigger] old(
                    ranges,
                )@[j]).start,
        ensures
            canonical(final(ranges)@),
            ranges_set(final(ranges)@) == ranges_set(old(ranges)@),
    {
        let ghost orig = ranges@;
        let mut index = pos;

        // backward, once
        if index > 0 && ranges[index].merges_with(&ranges[index - 1]) {
            let merged = ranges[index].merge(&ranges[index - 1]);
            proof {
                let s = ranges@;
                let k = index - 1;
                assert(merged == s[k].spanning(s[k + 1]));
                lemma_merge_pair(s, k);
            }
            ranges.set(index - 1, merged);
            ranges.remove(index);
            index = index - 1;
            proof {
                let s = ranges@;
                assert forall|i: int| 0 <= i < s.len() implies (#[trigger] s[i]).wf() by {
                    if i > index {
                        assert(s[i] == orig[i + 1]);
                    } else if i < index {
                        assert(s[i] == orig[i]);
                    }
                }
                assert forall|j: int| 0 <= j < index implies (#[trigger] s[j]).end + 1
                    < s[index as int].start by {
                    assert(s[j] == orig[j]);
                    assert(orig[j].end + 1 < orig[index as int].start);
                }
                assert forall|j: int| index < j < s.len() implies s[index as int].start
                    <= (#[trigger] s[j]).start by {
                    assert(s[j] == orig[j + 1]);
                }
                assert forall|i: int, j: int|
                    #![trigger s[i], s[j]]
                    0 <= i < j < s.len() && i != index && j != index implies s[i].end + 1
                        < s[j].start by {
                    let oi = if i < index { i } else { i + 1 };
                    let oj = if j < index { j } else { j + 1 };
                    assert(s[i] == orig[oi] && s[j] == orig[oj]);
                }
            }
        } else {
            proof {
                let s = ranges@;
                if index > 0 {
                    let k = index - 1;
                    assert(s[k].end + 1 < s[index as int].start);
                    assert forall|j: int| 0 <= j < index implies (#[trigger] s[j]).end + 1
                        < s[index as int].start by {
                        if j < k {
                            assert(s[j].end + 1 < s[k].start);
                        }
                    }
                }
            }
        }

        // forward, for as long as the next range touches
        while index < ranges.len() - 1 && ranges[index].merges_with(&ranges[index + 1])
            invariant
                index < ranges@.len(),
                ranges_set(ranges@) == ranges_set(orig),
                forall|i: int| 0 <= i < ranges@.len() ==> (#[trigger] ranges@[i]).wf(),
                forall|i: int, j: int|
                    #![trigger ranges@[i], ranges@[j]]
                    0 <= i < j < ranges@.len() && i != index && j != index ==> ranges@[i].end + 1
                        < ranges@[j].start,
                forall|j: int|
                    0 <= j < index ==> (#[trigger] ranges@[j]).end + 1 < ranges@[index as int].start,
                forall|j: int|
                    index < j < ranges@.len() ==> ranges@[index as int].start
                        <= (#[trigger] ranges@[j]).start,
            decreases ranges@.len(),
        {
            let merged = ranges[index].merge(&ranges[index + 1]);
            let ghost s = ranges@;
            proof {
                lemma_merge_pair(s, index as int);
            }
            ranges.set(index, merged);
            ranges.remove(index + 1);
            proof {
                let t = ranges@;
                assert forall|i: int| 0 <= i < t.len() implies (#[trigger] t[i]).wf() by {
                    if i > index {
                        assert(t[i] == s[i + 1]);
                    } else if i < index {
                        assert(t[i] == s[i]);
                    }
                }
                assert forall|j: int| 0 <= j < index implies (#[trigger] t[j]).end + 1
                    < t[index as int].start by {
                    assert(t[j] == s[j]);
                }
                assert forall|j: int| index < j < t.len() implies t[index as int].start
                    <= (#[trigger] t[j]).start by {
                    assert(t[j] == s[j + 1]);
                }
                assert forall|i: int, j: int|
                    #![trigger t[i], t[j]]
                    0 <= i < j < t.len() && i != index && j != index implies t[i].end + 1
                        < t[j].start by {
                    let si = if i < index { i } else { i + 1 };
                    let sj = if j < index { j } else { j + 1 };
                    assert(t[i] == s[si] && t[j] == s[sj]);
                }
            }
        }
        proof {
            let s = ranges@;
            let k = index as int;
            if k + 1 < s.len() {
                assert(s[k].end + 1 < s[k + 1].start);
                assert forall|j: int| k < j < s.len() implies s[k].end + 1 < (#[trigger] s[j]).start by {
                    if j > k + 1 {
                        assert(s[k + 1].end + 1 < s[j].start);
                    }
                }
            }
            assert forall|i: int, j: int| #![trigger s[i], s[j]] 0 <= i < j < s.len() implies s[i].end
                + 1 < s[j].start by {
                if i == k {
                    assert(s[k].end + 1 < s[j].start);
                } else if j == k {
                    assert(s[i].end + 1 < s[k].start);
                }
            }
        }
    }
}

impl CharRangeList {
    /// Removes every codepoint of `range`: each range is replaced, in order,
    /// by its residuals. An inverted range holds no codepoint and changes
    /// nothing.
    pub fn subtract_range(&mut self, range: CharRange)
        ensures
            canonical(final(self)@),
            final(self).set() == old(self).set().difference(range.codepoints()),
            range.wf() ==> final(self)@ == subtract_all(old(self)@, range),
            !range.wf() ==> final(self)@ == old(self)@,
    {
        proof {
            use_type_invariant(&*self);
        }
        if range.start > range.end {
            proof {
                assert(old(self).set().difference(range.codepoints()) =~= old(self).set());
            }
            return;
        }
        let ghost s = self@;
        let mut new_ranges: Vec<CharRange> = Vec::new();
        let mut i: usize = 0;
        while i < self.ranges.len()
            invariant
                s == self.ranges@,
                canonical(s),
                range.wf(),
                i <= s.len(),
                new_ranges@ == subtract_all(s.subrange(0, i as int), range),
                canonical(new_ranges@),
                new_ranges@.len() > 0 ==> i > 0 && new_ranges@.last().end <= s[i - 1].end,
                ranges_set(new_ranges@) == ranges_set(s.subrange(0, i as int)).difference(
                    range.codepoints(),
                ),
            decreases s.len() - i,
        {
            let mut residual = self.ranges[i].subtract(&range);
            let ghost prev = new_ranges@;
            let ghost x = s[i as int];
            proof {
                lemma_residual(x, range);
                let res = x.residual(range);
                if prev.len() > 0 && res.len() > 0 {
                    assert(s[i - 1].end + 1 < s[i as int].start);
                    assert(x.start <= res[0].start);
                }
                lemma_canonical_concat(prev, res);
                lemma_ranges_set_concat(prev, res);
                let p = s.subrange(0, i as int);
                let q = s.subrange(0, i + 1);
                assert(q.drop_last() =~= p);
                assert(q.last() == x);
                assert(subtract_all(q, range) == subtract_all(p, range) + res);
                assert(ranges_set(q) == ranges_set(p).union(x.codepoints()));
                assert(ranges_set(prev + res) =~= ranges_set(q).difference(range.codepoints()));
                if res.len() > 0 {
                    assert((prev + res).last() == res[res.len() - 1]);
                }
            }
            new_ranges.append(&mut residual);
            i = i + 1;
        }
        proof {
            assert(s.subrange(0, s.len() as int) =~= s);
        }
        self.ranges = new_ranges;
    }

    /// Removes every codepoint of `other`.
    pub fn subtract_range_list(&mut self, other: &CharRangeList)
        ensures
            canonical(final(self)@),
            final(self).set() == old(self).set().difference(other.set()),
    {
        proof {
            use_type_invariant(&*self);
        }
        let mut i: usize = 0;
        while i < other.ranges.len()
            invariant
                i <= other@.len(),
                other@ == other.ranges@,
                canonical(self@),
                self.set() == old(self).set().difference(ranges_set(other@.subrange(0, i as int))),
            decreases other@.len() - i,
        {
            let ghost before = self.set();
            self.subtract_range(other.ranges[i]);
            proof {
                let p = other@.subrange(0, i as int);
                let q = other@.subrange(0, i + 1);
                assert(q.drop_last() =~= p);
                assert(ranges_set(q) == ranges_set(p).union(other@[i as int].codepoints()));
                assert(self.set() =~= old(self).set().difference(ranges_set(q)));
            }
            i = i + 1;
        }
        proof {
            assert(other@.subrange(0, other@.len() as int) =~= other@);
        }
    }

    /// Whether codepoint `c` is in the set: a search for the last range that
    /// starts at or below `c`, then a check of its end.
    pub fn contains(&self, c: u32) -> (r: bool)
        ensures
            r == self.set().contains(c as int),
    {
        proof {
            use_type_invariant(self);
            lemma_ranges_set_covers(self@);
        }
        let mut lo: usize = 0;
        let mut hi: usize = self.ranges.len();
        while lo < hi
            invariant
                lo <= hi <= self@.len(),
                self@ == self.ranges@,
                canonical(self@),
                forall|j: int| 0 <= j < lo ==> (#[trigger] self@[j]).start <= c,
                forall|j: int| hi <= j < self@.len() ==> (#[trigger] self@[j]).start > c,
            decreases hi - lo,
        {
            let mid = lo + (hi - lo) / 2;
            if self.ranges[mid].start <= c {
                proof {
                    assert forall|j: int| 0 <= j <= mid implies (#[trigger] self@[j]).start <= c by {
                        if j < mid {
                            assert(self@[j].end + 1 < self@[mid as int].start);
                        }
                    }
                }
                lo = mid + 1;
            } else {
                proof {
                    assert forall|j: int| mid <= j < self@.len() implies (#[trigger] self@[j]).start
                        > c by {
                        if j > mid {
                            assert(self@[mid as int].end + 1 < self@[j].start);
                        }
                    }
                }
                hi = mid;
            }
        }
        let found = lo > 0 && c <= self.ranges[lo - 1].end;
        proof {
            let s = self@;
            if found {
                assert(s[lo - 1].has(c as int));
            } else {
                assert forall|j: int| 0 <= j < s.len() implies !(#[trigger] s[j]).has(c as int) by {
                    if j < lo - 1 {
                        assert(s[j].end + 1 < s[lo - 1].start);
                    }
                }
            }
        }
        found
    }

    /// The list that covers exactly the codepoints of the given ranges, built
    /// by inserting them one after another.
    pub fn from_ranges(items: &Vec<CharRange>) -> (r: CharRangeList)
        ensures
            canonical(r@),
            r.set() == ranges_set(items@),
    {
        let mut list = CharRangeList::new();
        let mut i: usize = 0;
        proof {
            assert(items@.subrange(0, 0) =~= Seq::<CharRange>::empty());
            assert(list.set() =~= ranges_set(items@.subrange(0, 0)));
        }
        while i < items.len()
            invariant
                i <= items@.len(),
                canonical(list@),
                list.set() == ranges_set(items@.subrange(0, i as int)),
            decreases items@.len() - i,
        {
            list.add_range(items[i]);
            proof {
                let q = items@.subrange(0, i + 1);
                assert(q.drop_last() =~= items@.subrange(0, i as int));
            }
            i = i + 1;
        }
        proof {
            assert(items@.subrange(0, items@.len() as int) =~= items@);
        }
        list
    }
}

impl Counter for CharRangeList {
    open spec fn covered(&self) -> int {
        total(self@)
    }

    fn count(&self) -> (r: u64) {
        proof {
            use_type_invariant(self);
        }
        let ghost s = self@;
        let mut sum: u64 = 0;
        let mut i: usize = 0;
        while i < self.ranges.len()
            invariant
                s == self.ranges@,
                canonical(s),
                i <= s.len(),
                sum == total(s.subrange(0, i as int)),
            decreases s.len() - i,
        {
            let r = self.ranges[i];
            proof {
                let q = s.subrange(0, i + 1);
                assert(q.drop_last() =~= s.subrange(0, i as int));
                assert(canonical(q)) by {
                    assert forall|a: int, b: int| #![trigger q[a], q[b]] 0 <= a < b < q.len()
                        implies q[a].end + 1 < q[b].start by {
                        assert(q[a] == s[a] && q[b] == s[b]);
                    }
                }
                lemma_total_bound(q);
                assert(q[0] == s[0]);
                assert(q.last() == r);
            }
            sum = sum + ((r.end - r.start) as u64 + 1);
            i = i + 1;
        }
        proof {
            assert(s.subrange(0, s.len() as int) =~= s);
        }
        sum
    }
}

} // verus!

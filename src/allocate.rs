use vstd::prelude::*;

use crate::canonical::{canonical, ranges_set};
use crate::range::CharRange;
use crate::range_list::CharRangeList;

verus! {

/// The codepoint that stands in for a missing glyph when none is configured: `*`.
pub const DEFAULT_FALLBACK: u32 = 0x2A;

/// The last codepoint of the excluded low range when none is configured: the
/// C0 control characters `0..=0x1F` are never assigned to a font.
pub const DEFAULT_EXCLUDED_END: u32 = 0x1F;

/// Why an allocation failed.
#[derive(Debug, PartialEq, Eq)]
pub enum AllocError {
    /// No font source was given.
    EmptySourceList,
    /// The named font does not resolve to any loadable resource.
    FontNotFound(String),
    /// The named font was found but could not be read.
    FontLoadFailure(String),
    /// No font's final set holds the fallback codepoint.
    FallbackCodepointUnassigned,
}

/// The settings of one allocation, fixed up front.
#[derive(Debug, Clone, Copy, PartialEq, Eq, Structural)]
pub struct AllocationConfig {
    /// The codepoint that some font must end up with.
    pub fallback: u32,
    /// The excluded low range is `0..=excluded_end`.
    pub excluded_end: u32,
}

impl AllocationConfig {
    pub open spec fn excluded_range(self) -> CharRange {
        CharRange { start: 0, end: self.excluded_end }
    }

    pub fn new(fallback: u32, excluded_end: u32) -> (r: AllocationConfig)
        ensures
            r.fallback == fallback,
            r.excluded_end == excluded_end,
    {
        AllocationConfig { fallback, excluded_end }
    }

    pub fn excluded(&self) -> (r: CharRange)
        ensures
            r == self.excluded_range(),
    {
        CharRange { start: 0, end: self.excluded_end }
    }
}

impl Default for AllocationConfig {
    fn default() -> (r: AllocationConfig)
        ensures
            r.fallback == DEFAULT_FALLBACK,
            r.excluded_end == DEFAULT_EXCLUDED_END,
    {
        AllocationConfig { fallback: DEFAULT_FALLBACK, excluded_end: DEFAULT_EXCLUDED_END }
    }
}

/// One font, named by the caller, with the codepoints it supports as reported
/// by its glyph source: single codepoints and ranges, in any order.
#[derive(Debug)]
pub struct GlyphSource {
    pub font: String,
    pub items: Vec<CharRange>,
}

/// The final set of codepoints assigned to one font.
#[derive(Debug)]
pub struct FontAllocation {
    pub font: String,
    pub coverage: CharRangeList,
}

/// The codepoint sets of a sequence of lists.
pub open spec fn sets_of(v: Seq<CharRangeList>) -> Seq<Set<int>> {
    v.map_values(|l: CharRangeList| l.set())
}

/// The raw codepoint sets of a sequence of glyph sources.
pub open spec fn raw_sets(v: Seq<GlyphSource>) -> Seq<Set<int>> {
    v.map_values(|g: GlyphSource| ranges_set(g.items@))
}

/// The union of a sequence of sets.
pub open spec fn union_of(sets: Seq<Set<int>>) -> Set<int>
    decreases sets.len(),
{
    if sets.len() == 0 {
        Set::empty()
    } else {
        union_of(sets.drop_last()).union(sets.last())
    }
}

/// What source `i` ends up with: the codepoints of its raw set that no source
/// before it holds and that are not excluded.
pub open spec fn claimed(raw: Seq<Set<int>>, i: int, excluded: Set<int>) -> Set<int> {
    raw[i].difference(union_of(raw.take(i))).difference(excluded)
}

pub proof fn lemma_union_of_contains(sets: Seq<Set<int>>, c: int)
    ensures
        union_of(sets).contains(c) <==> exists|k: int|
            0 <= k < sets.len() && (#[trigger] sets[k]).contains(c),
    decreases sets.len(),
{
    if sets.len() > 0 {
        let d = sets.drop_last();
        lemma_union_of_contains(d, c);
        if exists|k: int| 0 <= k < sets.len() && (#[trigger] sets[k]).contains(c) {
            let k = choose|k: int| 0 <= k < sets.len() && (#[trigger] sets[k]).contains(c);
            if k < sets.len() - 1 {
                assert(d[k] == sets[k]);
            }
        }
        if exists|k: int| 0 <= k < d.len() && (#[trigger] d[k]).contains(c) {
            let k = choose|k: int| 0 <= k < d.len() && (#[trigger] d[k]).contains(c);
            assert(sets[k] == d[k]);
        }
        if sets.last().contains(c) {
            assert(sets[sets.len() - 1].contains(c));
        }
    }
}

/// No codepoint is claimed by two sources.
pub proof fn lemma_claims_disjoint(raw: Seq<Set<int>>, excluded: Set<int>, i: int, j: int)
    requires
        0 <= i < raw.len(),
        0 <= j < raw.len(),
        i != j,
    ensures
        claimed(raw, i, excluded).disjoint(claimed(raw, j, excluded)),
{
    let (a, b) = if i < j { (i, j) } else { (j, i) };
    assert forall|c: int| claimed(raw, a, excluded).contains(c) implies !claimed(
        raw,
        b,
        excluded,
    ).contains(c) by {
        lemma_union_of_contains(raw.take(b), c);
        assert(raw.take(b)[a] == raw[a]);
    }
}

/// Subtracting the claims made so far, and the excluded set, takes out as much
/// as subtracting the raw sets of the same sources and the excluded set.
proof fn lemma_claims_cover_raw(raw: Seq<Set<int>>, excluded: Set<int>, n: int)
    requires
        0 <= n <= raw.len(),
    ensures
        union_of(Seq::new(n as nat, |k: int| claimed(raw, k, excluded))).union(excluded) == union_of(
            raw.take(n),
        ).union(excluded),
    decreases n,
{
    let cl = Seq::new(n as nat, |k: int| claimed(raw, k, excluded));
    if n == 0 {
        assert(raw.take(0) =~= Seq::<Set<int>>::empty());
        assert(union_of(raw.take(0)) == Set::<int>::empty());
    } else {
        lemma_claims_cover_raw(raw, excluded, n - 1);
        let prev = Seq::new((n - 1) as nat, |k: int| claimed(raw, k, excluded));
        assert(cl.drop_last() =~= prev);
        assert(raw.take(n).drop_last() =~= raw.take(n - 1));
        assert(raw.take(n).last() == raw[n - 1]);
        assert(cl.last() == claimed(raw, n - 1, excluded));
        assert(union_of(cl) == union_of(prev).union(claimed(raw, n - 1, excluded)));
        assert(union_of(raw.take(n)) == union_of(raw.take(n - 1)).union(raw[n - 1]));
        assert forall|c: int| #[trigger] union_of(cl).union(excluded).contains(c) == union_of(
            raw.take(n),
        ).union(excluded).contains(c) by {
            assert(union_of(prev).union(excluded).contains(c) == union_of(raw.take(n - 1)).union(
                excluded,
            ).contains(c));
        }
        assert(union_of(cl).union(excluded) =~= union_of(raw.take(n)).union(excluded));
    }
}

/// Takes out of `raw` every codepoint that a list of `finalized` holds, then
/// the `excluded` range.
pub fn claim(raw: CharRangeList, finalized: &Vec<CharRangeList>, excluded: CharRange) -> (r:
    CharRangeList)
    ensures
        canonical(r@),
        r.set() == raw.set().difference(union_of(sets_of(finalized@))).difference(
            excluded.codepoints(),
        ),
{
    let mut supported = raw;
    let mut j: usize = 0;
    proof {
        assert(sets_of(finalized@).take(0) =~= Seq::<Set<int>>::empty());
        assert(union_of(sets_of(finalized@).take(0)) == Set::<int>::empty());
        assert(supported.set() =~= raw.set().difference(Set::<int>::empty()));
    }
    while j < finalized.len()
        invariant
            j <= finalized@.len(),
            supported.set() == raw.set().difference(union_of(sets_of(finalized@).take(j as int))),
        decreases finalized@.len() - j,
    {
        supported.subtract_range_list(&finalized[j]);
        proof {
            let f = sets_of(finalized@);
            assert(f.take(j + 1).drop_last() =~= f.take(j as int));
            assert(f.take(j + 1).last() == finalized@[j as int].set());
            assert(supported.set() =~= raw.set().difference(union_of(f.take(j + 1))));
        }
        j = j + 1;
    }
    proof {
        assert(sets_of(finalized@).take(finalized@.len() as int) =~= sets_of(finalized@));
    }
    supported.subtract_range(excluded);
    supported
}

/// Whether some list holds codepoint `c`.
pub fn assigned_anywhere(lists: &Vec<CharRangeList>, c: u32) -> (r: bool)
    ensures
        r == exists|i: int| 0 <= i < lists@.len() && (#[trigger] lists@[i]).set().contains(c as int),
{
    let mut i: usize = 0;
    while i < lists.len()
        invariant
            i <= lists@.len(),
            forall|k: int| 0 <= k < i ==> !(#[trigger] lists@[k]).set().contains(c as int),
        decreases lists@.len() - i,
    {
        if lists[i].contains(c) {
            return true;
        }
        i = i + 1;
    }
    false
}

/// Assigns every codepoint that some source supports to the first source, in
/// the given order, that supports it; the excluded range goes to none. Fails
/// when there is no source, or when no source ends up with the fallback.
pub fn allocate(config: &AllocationConfig, sources: &Vec<GlyphSource>) -> (r: Result<
    Vec<FontAllocation>,
    AllocError,
>)
    ensures
        ({
            let raw = raw_sets(sources@);
            let ex = config.excluded_range().codepoints();
            let n = sources@.len();
            &&& (r == Err::<Vec<FontAllocation>, AllocError>(AllocError::EmptySourceList) <==> n
                == 0)
            &&& (r == Err::<Vec<FontAllocation>, AllocError>(
                AllocError::FallbackCodepointUnassigned,
            ) <==> n > 0 && forall|i: int|
                0 <= i < n ==> !(#[trigger] claimed(raw, i, ex)).contains(config.fallback as int))
            &&& (r is Ok <==> exists|i: int|
                0 <= i < n && (#[trigger] claimed(raw, i, ex)).contains(config.fallback as int))
            &&& match r {
                Ok(v) => {
                    &&& v@.len() == n
                    &&& forall|i: int|
                        0 <= i < n ==> (#[trigger] v@[i]).font == sources@[i].font
                            && canonical(v@[i].coverage@) && v@[i].coverage.set() == claimed(
                            raw,
                            i,
                            ex,
                        )
                    &&& forall|i: int, j: int|
                        #![trigger v@[i], v@[j]]
                        0 <= i < n && 0 <= j < n && i != j ==> v@[i].coverage.set().disjoint(
                            v@[j].coverage.set(),
                        )
                    &&& forall|i: int| 0 <= i < n ==> (#[trigger] v@[i]).coverage.set().disjoint(ex)
                },
                Err(_) => true,
            }
        }),
{
    let ghost raw = raw_sets(sources@);
    let ghost ex = config.excluded_range().codepoints();
    if sources.len() == 0 {
        return Err(AllocError::EmptySourceList);
    }
    let excluded = config.excluded();
    let mut finalized: Vec<CharRangeList> = Vec::new();
    let mut i: usize = 0;
    while i < sources.len()
        invariant
            i <= sources@.len(),
            raw == raw_sets(sources@),
            ex == config.excluded_range().codepoints(),
            excluded == config.excluded_range(),
            finalized@.len() == i,
            forall|k: int|
                0 <= k < i ==> canonical((#[trigger] finalized@[k])@) && finalized@[k].set()
                    == claimed(raw, k, ex),
        decreases sources@.len() - i,
    {
        let supported = CharRangeList::from_ranges(&sources[i].items);
        let mine = claim(supported, &finalized, excluded);
        proof {
            let cl = Seq::new(i as nat, |k: int| claimed(raw, k, ex));
            assert(sets_of(finalized@) =~= cl);
            lemma_claims_cover_raw(raw, ex, i as int);
            assert(raw[i as int] == ranges_set(sources@[i as int].items@));
            assert forall|c: int| #[trigger] mine.set().contains(c) == claimed(
                raw,
                i as int,
                ex,
            ).contains(c) by {
                assert(union_of(cl).union(ex).contains(c) == union_of(raw.take(i as int)).union(
                    ex,
                ).contains(c));
            }
            assert(mine.set() =~= claimed(raw, i as int, ex));
        }
        finalized.push(mine);
        proof {
            assert forall|k: int| 0 <= k < i + 1 implies canonical((#[trigger] finalized@[k])@)
                && finalized@[k].set() == claimed(raw, k, ex) by {}
        }
        i = i + 1;
    }
    if !assigned_anywhere(&finalized, config.fallback) {
        proof {
            assert forall|k: int| 0 <= k < sources@.len() implies !(#[trigger] claimed(
                raw,
                k,
                ex,
            )).contains(config.fallback as int) by {
                assert(finalized@[k].set() == claimed(raw, k, ex));
            }
        }
        return Err(AllocError::FallbackCodepointUnassigned);
    }
    let ghost all = finalized@;
    let mut result: Vec<FontAllocation> = Vec::new();
    let mut lists = finalized;
    let mut k: usize = 0;
    // pair each final set with its font, in the order of the sources
    while k < sources.len()
        invariant
            k <= sources@.len(),
            all.len() == sources@.len(),
            lists@ == all.subrange(k as int, all.len() as int),
            result@.len() == k,
            forall|j: int|
                0 <= j < k ==> (#[trigger] result@[j]).font == sources@[j].font
                    && result@[j].coverage == all[j],
        decreases sources@.len() - k,
    {
        let coverage = lists.remove(0);
        result.push(FontAllocation { font: sources[k].font.clone(), coverage });
        proof {
            assert(lists@ =~= all.subrange(k + 1, all.len() as int));
        }
        k = k + 1;
    }
    proof {
        let n = sources@.len();
        let fallback = config.fallback as int;
        assert(exists|i: int| 0 <= i < n && (#[trigger] claimed(raw, i, ex)).contains(fallback))
            by {
            let i = choose|i: int| 0 <= i < all.len() && (#[trigger] all[i]).set().contains(fallback);
            assert(claimed(raw, i, ex).contains(config.fallback as int));
        }
        assert forall|i: int, j: int|
            #![trigger result@[i], result@[j]]
            0 <= i < n && 0 <= j < n && i != j implies result@[i].coverage.set().disjoint(
                result@[j].coverage.set(),
            ) by {
            lemma_claims_disjoint(raw, ex, i, j);
        }
    }
    Ok(result)
}

} // verus!

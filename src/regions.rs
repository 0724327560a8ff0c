use vstd::prelude::*;

use crate::allocate::FontAllocation;
use crate::range::CharRange;

verus! {

/// One emission record: a range of codepoints and the font to draw it from,
/// `None` standing for the primary font.
#[derive(Debug, PartialEq, Eq)]
pub struct Region {
    pub start: u32,
    pub end: u32,
    pub font_name: Option<String>,
}

/// The emission records of a whole allocation, in order.
#[derive(Debug, PartialEq, Eq)]
pub struct CharacterRegions {
    pub character_region: Vec<Region>,
}

/// The records of one allocation, each tagged with its font.
pub open spec fn tagged(a: FontAllocation) -> Seq<Region> {
    a.coverage@.map_values(
        |x: CharRange| Region { start: x.start, end: x.end, font_name: Some(a.font) },
    )
}

/// The tagged records of every allocation: all of the first font's ranges in
/// ascending order, then all of the second's, and so on.
pub open spec fn tagged_all(allocs: Seq<FontAllocation>) -> Seq<Region>
    decreases allocs.len(),
{
    if allocs.len() == 0 {
        Seq::empty()
    } else {
        tagged_all(allocs.drop_last()) + tagged(allocs.last())
    }
}

/// The record with its tag dropped when the tag names `base`.
pub open spec fn untag(r: Region, base: Seq<char>) -> Region {
    match r.font_name {
        Some(name) => if name@ == base {
            Region { start: r.start, end: r.end, font_name: None }
        } else {
            r
        },
        None => r,
    }
}

/// The records that `emit_regions` gives for `allocs` with primary font `base`.
pub open spec fn regions_of(allocs: Seq<FontAllocation>, base: Seq<char>) -> Seq<Region> {
    tagged_all(allocs).map_values(|r: Region| untag(r, base))
}

impl CharacterRegions {
    /// Drops the tag of every record that names `base_font`: its glyphs come
    /// from the primary font.
    pub fn ommit_base_font(&mut self, base_font: &String)
        ensures
            final(self).character_region@ == old(self).character_region@.map_values(
                |r: Region| untag(r, base_font@),
            ),
    {
        let ghost orig = self.character_region@;
        let mut i: usize = 0;
        while i < self.character_region.len()
            invariant
                i <= self.character_region@.len(),
                self.character_region@.len() == orig.len(),
                forall|k: int|
                    0 <= k < i ==> (#[trigger] self.character_region@[k]) == untag(
                        orig[k],
                        base_font@,
                    ),
                forall|k: int|
                    i <= k < orig.len() ==> (#[trigger] self.character_region@[k]) == orig[k],
            decreases orig.len() - i,
        {
            let is_base = match &self.character_region[i].font_name {
                Some(name) => *name == *base_font,
                None => false,
            };
            if is_base {
                let start = self.character_region[i].start;
                let end = self.character_region[i].end;
                self.character_region.set(i, Region { start, end, font_name: None });
            }
            i = i + 1;
        }
        proof {
            assert(self.character_region@ =~= orig.map_values(|r: Region| untag(r, base_font@)));
        }
    }
}

/// Flattens an allocation into emission records: every range of every font,
/// font by font in the given order and each font's ranges in ascending order,
/// tagged with its font unless that font is `base_font`.
pub fn emit_regions(allocs: &Vec<FontAllocation>, base_font: &String) -> (r: CharacterRegions)
    ensures
        r.character_region@ == regions_of(allocs@, base_font@),
{
    let mut out: Vec<Region> = Vec::new();
    let mut i: usize = 0;
    proof {
        assert(allocs@.take(0) =~= Seq::<FontAllocation>::empty());
        assert(out@ =~= tagged_all(allocs@.take(0)));
    }
    while i < allocs.len()
        invariant
            i <= allocs@.len(),
            out@ == tagged_all(allocs@.take(i as int)),
        decreases allocs@.len() - i,
    {
        let alloc = &allocs[i];
        let ranges = alloc.coverage.ranges();
        let ghost base_out = out@;
        let mut j: usize = 0;
        while j < ranges.len()
            invariant
                j <= ranges@.len(),
                ranges@ == alloc.coverage@,
                out@ == base_out + tagged(*alloc).take(j as int),
            decreases ranges@.len() - j,
        {
            let x = ranges[j];
            out.push(Region { start: x.start, end: x.end, font_name: Some(alloc.font.clone()) });
            proof {
                assert(out@ =~= base_out + tagged(*alloc).take(j + 1));
            }
            j = j + 1;
        }
        proof {
            let q = allocs@.take(i + 1);
            assert(q.drop_last() =~= allocs@.take(i as int));
            assert(q.last() == *alloc);
            assert(tagged(*alloc).take(ranges@.len() as int) =~= tagged(*alloc));
        }
        i = i + 1;
    }
    proof {
        assert(allocs@.take(allocs@.len() as int) =~= allocs@);
    }
    let mut regions = CharacterRegions { character_region: out };
    regions.ommit_base_font(base_font);
    regions
}

} // verus!

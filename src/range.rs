use vstd::prelude::*;

verus! {

/// Something that covers a number of codepoints.
pub trait Counter {
    /// The number of codepoints covered, as a mathematical integer.
    spec fn covered(&self) -> int;

    fn count(&self) -> (r: u64)
        ensures
            r as int == self.covered(),
    ;
}

/// An inclusive range `[start, end]` of codepoints.
#[derive(Debug, Clone, Copy, PartialEq, Eq, Structural)]
pub struct CharRange {
    pub start: u32,
    pub end: u32,
}

impl CharRange {
    /// A range is well formed when it is not inverted.
    pub open spec fn wf(self) -> bool {
        self.start <= self.end
    }

    /// Whether codepoint `c` lies in the range.
    pub open spec fn has(self, c: int) -> bool {
        self.start <= c <= self.end
    }

    /// The codepoints of the range.
    pub open spec fn codepoints(self) -> Set<int> {
        Set::new(|c: int| self.has(c))
    }

    /// The number of codepoints of a well-formed range.
    pub open spec fn width(self) -> int {
        self.end - self.start + 1
    }

    /// Two ranges overlap or sit next to each other with no gap.
    pub open spec fn touches(self, other: CharRange) -> bool {
        self.end + 1 >= other.start && self.start <= other.end + 1
    }

    /// The smallest range that spans both.
    pub open spec fn spanning(self, other: CharRange) -> CharRange {
        CharRange {
            start: if self.start <= other.start { self.start } else { other.start },
            end: if self.end >= other.end { self.end } else { other.end },
        }
    }

    /// What is left of `self` once the codepoints of `other` are taken out:
    /// `self` itself when they do not overlap, else a left part and a right part,
    /// each only when it is not empty.
    pub open spec fn residual(self, other: CharRange) -> Seq<CharRange> {
        if self.start > other.end || self.end < other.start {
            seq![self]
        } else {
            (if self.start < other.start {
                seq![CharRange { start: self.start, end: (other.start - 1) as u32 }]
            } else {
                Seq::empty()
            }) + (if self.end > other.end {
                seq![CharRange { start: (other.end + 1) as u32, end: self.end }]
            } else {
                Seq::empty()
            })
        }
    }

    pub fn new(start: u32, end: u32) -> (r: CharRange)
        requires
            start <= end,
        ensures
            r.start == start,
            r.end == end,
    {
        CharRange { start, end }
    }

    /// Whether codepoint `c` lies in the range.
    pub fn contains(&self, c: u32) -> (r: bool)
        ensures
            r == self.has(c as int),
    {
        self.start <= c && c <= self.end
    }

    pub fn merges_with(&self, other: &CharRange) -> (r: bool)
        ensures
            r == self.touches(*other),
    {
        self.end as u64 + 1 >= other.start as u64 && self.start as u64 <= other.end as u64 + 1
    }

    pub fn merge(&self, other: &CharRange) -> (r: CharRange)
        ensures
            r == self.spanning(*other),
    {
        CharRange {
            start: if self.start <= other.start { self.start } else { other.start },
            end: if self.end >= other.end { self.end } else { other.end },
        }
    }

    pub fn subtract(&self, other: &CharRange) -> (r: Vec<CharRange>)
        ensures
            r@ == self.residual(*other),
    {
        let mut result: Vec<CharRange> = Vec::new();
        if self.start > other.end || self.end < other.start {
            result.push(*self);
        } else {
            if self.start < other.start {
                result.push(CharRange { start: self.start, end: other.start - 1 });
            }
            if self.end > other.end {
                result.push(CharRange { start: other.end + 1, end: self.end });
            }
        }
        proof {
            assert(result@ =~= self.residual(*other));
        }
        result
    }

    pub proof fn lemma_spanning(self, other: CharRange)
        requires
            self.wf(),
            other.wf(),
            self.touches(other),
        ensures
            self.spanning(other).wf(),
            self.spanning(other).codepoints() == self.codepoints().union(other.codepoints()),
    {
        assert(self.spanning(other).codepoints() =~= self.codepoints().union(other.codepoints()));
    }
}

impl Counter for CharRange {
    open spec fn covered(&self) -> int {
        if self.start <= self.end { self.width() } else { 0 }
    }

    fn count(&self) -> (r: u64) {
        if self.start <= self.end {
            (self.end - self.start) as u64 + 1
        } else {
            0
        }
    }
}

} // verus!

//! Coverage allocation for composite fonts: interval sets of codepoints and the
//! first-match-wins assignment of codepoints to a list of fonts.

pub mod allocate;
pub mod canonical;
pub mod laws;
pub mod range;
pub mod range_list;
pub mod regions;
pub mod style;

pub use allocate::{
    allocate, assigned_anywhere, claim, AllocError, AllocationConfig, FontAllocation, GlyphSource,
    DEFAULT_EXCLUDED_END, DEFAULT_FALLBACK,
};
pub use range::{CharRange, Counter};
pub use range_list::CharRangeList;
pub use style::{FontStyle, VerticalOffset};
pub use regions::{emit_regions, CharacterRegions, Region};

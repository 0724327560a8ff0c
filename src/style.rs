use vstd::prelude::*;

verus! {

/// The style a font is drawn in.
#[derive(Debug, Clone, Copy, PartialEq, Eq, Structural)]
pub enum FontStyle {
    Regular,
    Bold,
    Italic,
    BoldItalic,
}

/// Where the baseline of a composite font is taken from.
#[derive(Debug, Clone, Copy, PartialEq, Eq, Structural)]
pub enum VerticalOffset {
    DefaultFontAscent,
    MaxAscent,
}

} // verus!

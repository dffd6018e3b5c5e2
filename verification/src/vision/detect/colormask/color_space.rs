use vstd::prelude::*;

verus! {

/// Colour space in which the three channel ranges are read.
#[derive(Debug, Clone, Copy, PartialEq, Eq, Structural)]
pub enum ColorSpace {
    Ycrcb,
    Hsv,
}

} // verus!

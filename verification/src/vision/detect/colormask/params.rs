use vstd::prelude::*;

use super::ColorSpace;

verus! {

/// Inclusive per-channel ranges in one colour space.
#[derive(Debug, Clone, Copy, PartialEq, Eq, Structural)]
pub struct ColormaskParams {
    pub space: ColorSpace,
    pub c0_min: u8,
    pub c0_max: u8,
    pub c1_min: u8,
    pub c1_max: u8,
    pub c2_min: u8,
    pub c2_max: u8,
}

/// Why a colour mask was refused.
#[derive(Debug, Clone, Copy, PartialEq, Eq, Structural)]
pub enum ColormaskError {
    /// Channel `channel` (0, 1 or 2) has its minimum above its maximum.
    InvertedRange { channel: u8 },
}

/// The first channel, in order 0, 1, 2, whose range is inverted.
pub open spec fn first_inverted(p: ColormaskParams) -> Option<u8> {
    if p.c0_min > p.c0_max {
        Some(0u8)
    } else if p.c1_min > p.c1_max {
        Some(1u8)
    } else if p.c2_min > p.c2_max {
        Some(2u8)
    } else {
        None
    }
}

pub open spec fn validate_spec(p: ColormaskParams) -> Result<(), ColormaskError> {
    match first_inverted(p) {
        Some(channel) => Err(ColormaskError::InvertedRange { channel }),
        None => Ok(()),
    }
}

impl ColormaskParams {
    /// Every channel range must have `min <= max`; the first that does not is named.
    pub fn validate(&self) -> (r: Result<(), ColormaskError>)
        ensures
            r == validate_spec(*self),
    {
        if self.c0_min > self.c0_max {
            return Err(ColormaskError::InvertedRange { channel: 0 });
        }
        if self.c1_min > self.c1_max {
            return Err(ColormaskError::InvertedRange { channel: 1 });
        }
        if self.c2_min > self.c2_max {
            return Err(ColormaskError::InvertedRange { channel: 2 });
        }
        Ok(())
    }
}

} // verus!

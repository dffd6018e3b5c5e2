use vstd::prelude::*;

use super::ColormaskParams;
use crate::camera;

verus! {

/// A colour sample picked in the tuning tool — a BGR triple.
pub type ColormaskBgr = [u8; 3];

/// One camera's colour mask: its id, its ranges and the samples they came from.
#[derive(Debug, Clone, PartialEq, Eq)]
pub struct ColormaskCam {
    pub camera_id: camera::Id,
    pub params: ColormaskParams,
    /// `[[B,G,R], …]` — colour only, no pixel position (the ball moves).
    pub samples: Vec<ColormaskBgr>,
}

} // verus!

use vstd::prelude::*;

verus! {

/// Identifier of one camera of the rig.
#[derive(Debug, Clone, Copy, PartialEq, Eq, Structural, Hash)]
pub struct Id(pub u32);

} // verus!

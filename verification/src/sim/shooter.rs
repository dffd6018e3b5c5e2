//! The ball shooter on the far side of the table.
use vstd::prelude::*;

verus! {

/// Where the ball is in its flight cycle.
#[derive(Debug, Clone, Copy, PartialEq, Eq, Structural)]
pub enum BallState {
    /// Held at the shooter's muzzle.
    Parked,
    /// In flight.
    InFlight,
}

impl BallState {
    /// The state as shown to the user.
    pub fn label(&self) -> (r: &'static str)
        ensures
            r@ == (match self {
                BallState::Parked => "parked"@,
                BallState::InFlight => "in flight"@,
            }),
    {
        match self {
            BallState::Parked => "parked",
            BallState::InFlight => "in flight",
        }
    }
}

} // verus!

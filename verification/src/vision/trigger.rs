//! When to make the predicted trajectory.
use vstd::prelude::*;

use super::contract::State;

verus! {

/// Everything a trigger may decide on.
///
/// Handing over only the fitted trajectory would lose which observations it
/// came from: a track of many samples seen by one camera alone looks like a
/// healthy one. What actually pins depth is what both cameras saw at the same
/// moment, so that count travels separately.
pub struct Evidence<'a> {
    /// The fitted trajectory sampled at every observation time.
    pub measured: &'a [State],
    /// Samples that both cameras saw at the same moment — pairs, not the smaller
    /// per-camera count.
    pub stereo_samples: usize,
}

impl<'a> Evidence<'a> {
    /// Evidence that does not weigh the stereo count — for triggers that ignore it.
    pub fn of(measured: &'a [State]) -> (r: Evidence<'a>)
        ensures
            r.measured@ == measured@,
            r.stereo_samples == measured@.len(),
    {
        Evidence { measured, stereo_samples: measured.len() }
    }
}

impl<'a> std::ops::Deref for Evidence<'a> {
    type Target = [State];

    fn deref(&self) -> (r: &[State])
        ensures
            r@ == self.measured@,
    {
        self.measured
    }
}

/// Is this the moment the predicted trajectory may be made?
///
/// A level condition, not an edge: catching the first moment it turns true is
/// the tracker's job.
pub trait Trigger {
    /// Label for sweep tables.
    fn name(&self) -> &'static str;

    /// Takes the whole evidence because some conditions need its history.
    fn ready(&self, evidence: &Evidence) -> bool;
}

} // verus!

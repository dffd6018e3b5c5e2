//! The simulated rig.
pub mod bang_bang_worker;
pub mod episode;
pub mod shooter;
pub mod shot;

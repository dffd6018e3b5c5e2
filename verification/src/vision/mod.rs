//! Frames in, [`contract::Trajectory`] out: the tracking side of the robot.
pub mod contract;
pub mod detect;
pub mod ekf;
pub mod fit;
pub mod raw;
pub mod seed;
pub mod trigger;
pub mod views;

//! Ball-tracking and colour-mask logic of the ping-pong robot runtime.
//!
//! Positions, velocities, spins and their uncertainties are fixed-point
//! integers in micro-units (µm, µm/s, µrad/s) and times are nanoseconds, so
//! that every rule here is exact and proved; the floating-point numerics
//! (projection, triangulation, ballistic integration) live with the caller.
pub mod camera;
pub mod sim;
pub mod vision;

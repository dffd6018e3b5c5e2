//! Detection settings.
pub mod colormask;

//! Colour-mask parameters and the bundle they are stored in.
//!
//! The tuning tool writes them and the colour layer reads them; detection
//! itself is not here — this is only the single source of "which colour".
pub mod cam;
pub mod color_space;
pub mod params;
pub mod set;

pub use cam::{ColormaskBgr, ColormaskCam};
pub use color_space::ColorSpace;
pub use params::{ColormaskError, ColormaskParams};
pub use set::{ColormaskSet, load_colormask_set_or_empty};

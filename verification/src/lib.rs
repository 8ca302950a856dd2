//! Validation of a hue × chroma × value partition into named colour regions.

pub mod axis;
pub mod block;
pub mod hue;
pub mod laws;
pub mod mean_color;
pub mod names;
pub mod partition;
pub mod table;
pub mod validate;

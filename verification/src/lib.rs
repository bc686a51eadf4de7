//! Single-stroke shape recognition on an integer grid.
//!
//! A stroke is an ordered sequence of pointer samples. It is normalized
//! into a frame that ignores where and how large it was drawn, resampled to
//! a fixed number of points evenly spaced along its length, and given the
//! label of the nearest reference shape.

pub mod gesture;
pub mod laws;
pub mod library;
pub mod numeric;
pub mod path;
pub mod resample;

pub use gesture::PreparedGesture;
pub use gesture::RESOLUTION;
pub use library::gesture_from_positions;
pub use library::Template;
pub use library::TemplateLibrary;
pub use path::normalize;
pub use path::DegenerateInput;
pub use path::NormalizedPath;
pub use path::UNIT;
pub use resample::resample;

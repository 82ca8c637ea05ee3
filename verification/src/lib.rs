//! Recognition of hand-drawn strokes by greedy elastic matching against a
//! library of labelled templates.
//!
//! All geometry is computed on integers: a coordinate is a count of fixed-point
//! units, a length is the floor of the Euclidean length, and a matching cost is
//! an exact natural number. Every result is therefore reproducible bit for bit
//! and is pinned by the contract of the function that returns it.

pub mod capture;
pub mod epsilon;
pub mod geometry;
pub mod laws;
pub mod matcher;
mod natural;
pub mod normalize;
pub mod recognizer;
pub mod resample;
pub mod store;

pub use capture::{CaptureError, CaptureSession, DrawAction, DrawMoment, InputFrame, TouchSample};
pub use epsilon::{restart_offsets, Epsilon};
pub use geometry::Point;
pub use matcher::{match_distance, MAX_POINTS};
pub use normalize::{scale_and_translate, NORMALIZED_EXTENT};
pub use recognizer::{canonicalize, greedy_5, recognize, Recognition};
pub use resample::resample;
pub use store::{TemplateError, TemplateStore, N_RESAMPLED_POINTS};

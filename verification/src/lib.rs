//! Text-region extraction for character-affinity score maps.
//!
//! The pipeline thresholds two score grids, labels the connected components
//! of the combined mask with a disjoint-set forest, keeps the components that
//! are large and confident enough, and fits a rotated rectangle around each.

pub mod connectivity;
pub mod contour;
pub mod detect;
pub mod forest;
pub mod grid;
pub mod labeling;
pub mod laws;
pub mod morphology;
pub mod region;
mod relabel;
mod scan;
pub mod threshold;

//! Time-aligned matching of two-dimensional tracks and the index arithmetic of
//! dilated-convolution features, both over whole batches of rows.
//!
//! Everything here works on integers: timestamps, identifiers, positions in a
//! sequence and counters.  Coordinates, kernel weights and sampled values are
//! real numbers and never enter this crate; a caller keeps them and is told
//! which positions to read, in which order, and how often.

pub use matcher::match_nearest_point;
pub use ppv::mini_rocket_expr;

pub mod matcher;
pub mod nearest;
pub mod ppv;
pub mod table;
pub mod window;

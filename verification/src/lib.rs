//! Deterministic eyes for a 2D CAD drawing: a compact summary of what a
//! drawing contains, and the search that turns a point into the entity
//! references at that spot.
//!
//! Nothing here infers. A value that cannot be established is reported as
//! such, and a summary never carries a higher confidence than the entities
//! it was made from.

pub mod extent;
pub mod model;
pub mod order;
pub mod summary;
pub mod text;

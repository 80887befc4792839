//! Approximate ultrametric distances for large point sets.
//!
//! The pipeline bounds the diameter with an approximate-farthest-neighbor
//! sketch, collects candidate near pairs with locality-sensitive hashing
//! across a geometric ladder of radii, extracts an exact minimum spanning
//! tree from the candidates, rescales its weights into linkage weights,
//! flattens the single-linkage dendrogram into a point order plus gap
//! array, and answers ultrametric distance queries with a constant-time
//! range-maximum structure.
//!
//! Coordinates and weights are bounded integers; distances are kept
//! squared so that every comparison is exact.

pub mod afn;
pub mod cut_weights;
pub mod lsh;
pub mod points;
pub mod rmq;
pub mod rng;
pub mod spanning_tree;
pub mod ultrametric;
pub mod union_find;

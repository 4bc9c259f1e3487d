//! A proximity graph over 2-D points in fixed-point coordinates.
//!
//! The library maintains a set of nodes (stable integer identities with
//! positions) and a derived set of pairwise relationships: two nodes are
//! linked exactly when their distance is below a count-dependent visibility
//! threshold, and each link carries a continuous intensity in [0, 1].
//! All real-valued quantities are carried in fixed point with a scale of
//! one million units per coordinate unit.

pub mod math;
pub mod proximity;
pub mod graph;
